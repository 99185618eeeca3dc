//! The names and URLs under which the embedded tile server publishes each mounted source.
//!
//! **The embedded server sends a long `cache-control`**, which is right for a public tile server and
//! wrong for an editing surface: mount names are stable, so re-opening a file that changed on disk
//! asks for the same URL and the webview answers from its cache. A revision that changes on every
//! mount makes each build a different URL, which no cache can confuse. Per mount rather than
//! global, so re-opening one source does not force every other to be refetched.

use vstd::prelude::*;
use crate::text::{push_char, push_str, same_text};

verus! {

/// The decimal digit for `d`.
pub open spec fn digit(d: nat) -> char {
    if d == 0 { '0' } else if d == 1 { '1' } else if d == 2 { '2' } else if d == 3 { '3' } else if d == 4 { '4' }
    else if d == 5 { '5' } else if d == 6 { '6' } else if d == 7 { '7' } else if d == 8 { '8' } else { '9' }
}

/// `n` written in decimal, without leading zeros.
pub open spec fn decimal(n: nat) -> Seq<char>
    decreases n,
{
    if n < 10 {
        seq![digit(n)]
    } else {
        decimal(n / 10).push(digit(n % 10))
    }
}

fn digit_char(d: u32) -> (c: char)
    requires
        d < 10,
    ensures
        c == digit(d as nat),
{
    if d == 0 { '0' } else if d == 1 { '1' } else if d == 2 { '2' } else if d == 3 { '3' } else if d == 4 { '4' }
    else if d == 5 { '5' } else if d == 6 { '6' } else if d == 7 { '7' } else if d == 8 { '8' } else { '9' }
}

/// Appends `n` in decimal.
pub fn push_decimal(out: &mut String, n: u32)
    ensures
        final(out)@ == old(out)@ + decimal(n as nat),
    decreases n,
{
    if n >= 10 {
        push_decimal(out, n / 10);
    }
    push_char(out, digit_char(n % 10));
    proof {
        if n >= 10 {
            assert(decimal(n as nat) == decimal((n / 10) as nat).push(digit((n % 10) as nat)));
        }
    }
}

/// Appends `n` in decimal.
pub fn push_decimal_wide(out: &mut String, n: u64)
    ensures
        final(out)@ == old(out)@ + decimal(n as nat),
    decreases n,
{
    if n >= 10 {
        push_decimal_wide(out, n / 10);
    }
    let d = (n % 10) as u32;
    push_char(out, digit_char(d));
    proof {
        if n >= 10 {
            assert(decimal(n as nat) == decimal((n / 10) as nat).push(digit((n % 10) as nat)));
        }
    }
}

/// The tile URL template for a mount: MapLibre fills in the placeholders, and the revision makes
/// each mount of a name a different URL.
pub open spec fn tile_url_text(base: Seq<char>, name: Seq<char>, revision: u32) -> Seq<char> {
    base + "/tiles/"@ + name + "/{z}/{x}/{y}?v="@ + decimal(revision as nat)
}

/// The tile URL template for `name` under `base`, at `revision`.
pub fn tile_url_for(base: &str, name: &str, revision: u32) -> (url: String)
    ensures
        url@ == tile_url_text(base@, name@, revision),
{
    let mut url = String::new();
    push_str(&mut url, base);
    push_str(&mut url, "/tiles/");
    push_str(&mut url, name);
    push_str(&mut url, "/{z}/{x}/{y}?v=");
    push_decimal(&mut url, revision);
    proof {
        assert(url@ =~= tile_url_text(base@, name@, revision));
    }
    url
}

/// How many times each name has been mounted.
pub struct Revisions {
    counts: Vec<(String, u32)>,
}

/// The revision of `name` among `counts`, `0` for a name never mounted.
pub open spec fn revision_in(counts: Seq<(Seq<char>, u32)>, name: Seq<char>) -> u32
    decreases counts.len(),
{
    if counts.len() == 0 {
        0
    } else if counts.last().0 == name {
        counts.last().1
    } else {
        revision_in(counts.drop_last(), name)
    }
}

impl Revisions {
    pub closed spec fn model(&self) -> Seq<(Seq<char>, u32)> {
        self.counts@.map_values(|p: (String, u32)| (p.0@, p.1))
    }

    /// The revision of `name`: how many times it has been mounted.
    pub closed spec fn of(&self, name: Seq<char>) -> u32 {
        revision_in(self.model(), name)
    }

    pub fn new() -> (r: Revisions)
        ensures
            forall|name: Seq<char>| r.of(name) == 0,
    {
        let r = Revisions { counts: Vec::new() };
        proof {
            assert(r.model() =~= Seq::<(Seq<char>, u32)>::empty());
        }
        r
    }

    /// The current revision of `name`.
    pub fn revision(&self, name: &str) -> (n: u32)
        ensures
            n == self.of(name@),
    {
        let ghost m = self.model();
        let mut i: usize = self.counts.len();
        proof {
            assert(m.take(i as int) =~= m);
        }
        while i > 0
            invariant
                i <= self.counts@.len(),
                m == self.model(),
                revision_in(m, name@) == revision_in(m.take(i as int), name@),
            decreases i,
        {
            proof {
                assert(m.take(i as int).drop_last() =~= m.take(i - 1));
                assert(m.take(i as int).last() == (self.counts@[i - 1].0@, self.counts@[i - 1].1));
            }
            if same_text(self.counts[i - 1].0.as_str(), name) {
                return self.counts[i - 1].1;
            }
            i = i - 1;
        }
        proof {
            assert(m.take(0) =~= Seq::<(Seq<char>, u32)>::empty());
        }
        0
    }

    /// Records another mount of `name`, so its next URL differs from every earlier one.
    pub fn bump(&mut self, name: &str)
        ensures
            final(self).of(name@) == old(self).of(name@).wrapping_add(1),
            forall|other: Seq<char>| other != name@ ==> final(self).of(other) == old(self).of(other),
    {
        let next = self.revision(name).wrapping_add(1);
        let ghost before = self.model();
        self.counts.push((crate::text::owned(name), next));
        proof {
            assert(self.model() =~= before.push((name@, next)));
            assert(self.model().drop_last() =~= before);
            assert forall|other: Seq<char>| other != name@ implies self.of(other) == revision_in(before, other) by {
                assert(self.model().last().0 == name@);
            }
        }
    }

    /// Appends `n` in decimal.
pub fn push_decimal_wide(out: &mut String, n: u64)
    ensures
        final(out)@ == old(out)@ + decimal(n as nat),
    decreases n,
{
    if n >= 10 {
        push_decimal_wide(out, n / 10);
    }
    let d = (n % 10) as u32;
    push_char(out, digit_char(d));
    proof {
        if n >= 10 {
            assert(decimal(n as nat) == decimal((n / 10) as nat).push(digit((n % 10) as nat)));
        }
    }
}

/// The tile URL template for a mount under `base`, including the revision that defeats caching.
    pub fn tile_url(&self, base: &str, name: &str) -> (url: String)
        ensures
            url@ == tile_url_text(base@, name@, self.of(name@)),
    {
        let revision = self.revision(name);
        tile_url_for(base, name, revision)
    }
}

/// Two mounts of one name at different revisions are served under different URLs.
pub proof fn lemma_revisions_tell_mounts_apart(base: Seq<char>, name: Seq<char>, a: u32, b: u32)
    requires
        a != b,
    ensures
        tile_url_text(base, name, a) != tile_url_text(base, name, b),
{
    lemma_decimal_injective(a as nat, b as nat);
    let pa = base + "/tiles/"@ + name + "/{z}/{x}/{y}?v="@;
    if tile_url_text(base, name, a) == tile_url_text(base, name, b) {
        assert(tile_url_text(base, name, a).skip(pa.len() as int) =~= decimal(a as nat));
        assert(tile_url_text(base, name, b).skip(pa.len() as int) =~= decimal(b as nat));
    }
}

proof fn lemma_digit_injective(a: nat, b: nat)
    requires
        a < 10,
        b < 10,
        a != b,
    ensures
        digit(a) != digit(b),
{
}

proof fn lemma_decimal_injective(a: nat, b: nat)
    requires
        a != b,
    ensures
        decimal(a) != decimal(b),
    decreases a + b,
{
    lemma_decimal_len(a);
    lemma_decimal_len(b);
    if a < 10 && b < 10 {
        lemma_digit_injective(a, b);
        assert(decimal(a)[0] != decimal(b)[0]);
    } else if a < 10 || b < 10 {
        if a < 10 {
            lemma_decimal_len(b / 10);
        } else {
            lemma_decimal_len(a / 10);
        }
    } else if a % 10 != b % 10 {
        lemma_digit_injective(a % 10, b % 10);
        assert(decimal(a).last() != decimal(b).last());
    } else {
        assert(a / 10 != b / 10);
        lemma_decimal_injective(a / 10, b / 10);
        if decimal(a) == decimal(b) {
            assert(decimal(a).drop_last() =~= decimal(a / 10));
            assert(decimal(b).drop_last() =~= decimal(b / 10));
        }
    }
}

proof fn lemma_decimal_len(n: nat)
    ensures
        decimal(n).len() >= 1,
        n >= 10 ==> decimal(n).len() >= 2,
    decreases n,
{
    if n >= 10 {
        lemma_decimal_len(n / 10);
    }
}

} // verus!
