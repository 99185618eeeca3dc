//! A project: a directory holding a `project.yaml` manifest beside real `.vpl` files and a real
//! style, each usable without Studio.
//!
//! The manifest names the graphs by relative path rather than embedding them. What is decided here
//! is what may be written and what may be read back: a graph name becomes a filename in a
//! directory the user chose, and a manifest is data that names files.

use vstd::prelude::*;
use crate::import::{is_pipeline, names_pipeline, pipeline_exts, pipeline_extensions, strs};
use crate::paths::{segment, segment_check, split_slash, PathError};
use crate::text::{owned, push_str};
use crate::vpl::ast::texts;

verus! {

/// The manifest's filename. Fixed, because a directory is a project by containing one.
pub const MANIFEST_FILE: &'static str = "project.yaml";

/// The style written beside it: an output, never read back.
pub const STYLE_FILE: &'static str = "style.json";

/// The newest manifest version this library reads.
pub const MANIFEST_VERSION: u32 = 1;

/// One graph as the manifest names it. (Its crop travels beside it, with the app.)
#[derive(Debug)]
pub struct GraphRef {
    /// The graph's name: its mount, its source name in the style, and its filename.
    pub name: String,
    /// Where its VPL lives, relative to the manifest.
    pub file: String,
}

/// One graph with its pipeline text, as saved and as loaded.
#[derive(Debug)]
pub struct SavedGraph {
    pub name: String,
    pub vpl: String,
    /// Whether it is drawn.
    pub enabled: bool,
    /// Which of its operations are switched off, each by its path of indices into the pipeline.
    pub disabled: Vec<Vec<u32>>,
}

pub ghost struct SavedGraphM {
    pub name: Seq<char>,
    pub vpl: Seq<char>,
    pub enabled: bool,
    pub disabled: Seq<Seq<u32>>,
}

impl View for SavedGraph {
    type V = SavedGraphM;

    open spec fn view(&self) -> SavedGraphM {
        SavedGraphM { name: self.name@, vpl: self.vpl@, enabled: self.enabled, disabled: self.disabled.deep_view() }
    }
}

/// What `project.yaml` says of the graphs. (The style recipe travels beside it, with the app.)
#[derive(Debug)]
pub struct Manifest {
    /// Bumped when a later Studio cannot read an earlier file.
    pub version: u32,
    pub graphs: Vec<GraphRef>,
}

/// A project read back: the manifest, and each graph in manifest order.
#[derive(Debug)]
pub struct Loaded {
    pub manifest: Manifest,
    pub graphs: Vec<SavedGraph>,
}

/// Refuses a graph name that would be a path rather than a filename.
///
/// A name reaches this from a rename box and becomes a filename in a directory the user chose;
/// `../../.bashrc` is a name someone can type.
pub fn check_name(name: &str) -> (r: Result<(), PathError>)
    ensures
        r == segment_check(name@),
{
    segment(name)
}

/// `name` between double quotes, as the messages cite it.
pub open spec fn cited(name: Seq<char>) -> Seq<char> {
    seq!['"'] + name + seq!['"']
}

/// Why [`segment`] refused `name`, in its own words.
pub open spec fn reason_text(name: Seq<char>, e: PathError) -> Seq<char> {
    match e {
        PathError::Empty => "an empty name cannot be a filename"@,
        PathError::Separator => cited(name) + " cannot be a filename - it contains a path separator"@,
        PathError::Dot => cited(name) + " cannot be a filename"@,
        PathError::Absolute => cited(name) + " is an absolute path, and must be inside the target directory"@,
        PathError::Outside => cited(name) + " points outside the target directory"@,
    }
}

/// What a refused graph name is answered with: the name, that it cannot be a graph name, and the
/// reason beneath it.
pub open spec fn refusal_text(name: Seq<char>, e: PathError) -> Seq<char> {
    cited(name) + " cannot be a graph name: "@ + reason_text(name, e)
}

/// The answer to a graph name [`check_name`] refused with `e`; see [`refusal_text`]. The name is
/// cited between double quotes as it was given.
pub fn name_refusal(name: &str, e: &PathError) -> (m: String)
    ensures
        m@ == refusal_text(name@, *e),
{
    let mut m = owned("\"");
    push_str(&mut m, name);
    push_str(&mut m, "\" cannot be a graph name: ");
    match e {
        PathError::Empty => push_str(&mut m, "an empty name cannot be a filename"),
        _ => {
            push_str(&mut m, "\"");
            push_str(&mut m, name);
            push_str(&mut m, "\"");
            match e {
                PathError::Separator => push_str(&mut m, " cannot be a filename - it contains a path separator"),
                PathError::Dot => push_str(&mut m, " cannot be a filename"),
                PathError::Absolute => push_str(&mut m, " is an absolute path, and must be inside the target directory"),
                _ => push_str(&mut m, " points outside the target directory"),
            }
        },
    }
    proof {
        reveal_strlit("\"");
        reveal_strlit("\" cannot be a graph name: ");
        reveal_strlit(" cannot be a graph name: ");
        assert("\" cannot be a graph name: "@ =~= seq!['"'] + " cannot be a graph name: "@);
        assert(m@ =~= refusal_text(name@, *e));
    }
    m
}

/// How the manifest names a graph's file: its name and `.vpl`.
pub open spec fn graph_file(name: Seq<char>) -> Seq<char> {
    name + ".vpl"@
}

/// The manifest's entry for a graph.
pub fn graph_ref(graph: &SavedGraph) -> (r: GraphRef)
    ensures
        r.name@ == graph.name@,
        r.file@ == graph_file(graph.name@),
{
    let mut file = owned(graph.name.as_str());
    push_str(&mut file, ".vpl");
    GraphRef { name: graph.name.clone(), file }
}

/// Where a file is written before it is renamed into place: beside it, so the rename stays on one
/// file system and is atomic.
pub fn temp_path(path: &str) -> (r: String)
    ensures
        r@ == path@ + ".tmp"@,
{
    let mut out = owned(path);
    push_str(&mut out, ".tmp");
    out
}

/// Why a pipeline was not written, or a manifest not read.
#[derive(Debug, Clone, PartialEq, Eq)]
pub enum ProjectError {
    /// The destination does not name a pipeline file; what to tell the user.
    NotAPipeline(String),
    /// The manifest was written by a later version.
    LaterVersion(u32),
    /// The manifest names a file outside the project; the name it gave.
    Outside(String),
}

/// The extensions joined as a sentence lists them: `vpl or .x`.
pub open spec fn listed(exts: Seq<Seq<char>>) -> Seq<char>
    decreases exts.len(),
{
    if exts.len() == 0 {
        seq![]
    } else if exts.len() == 1 {
        exts[0]
    } else {
        listed(exts.drop_last()) + " or ."@ + exts.last()
    }
}

/// What a refused destination is told.
pub open spec fn not_a_pipeline(path: Seq<char>) -> Seq<char> {
    "cannot write "@ + path + ": a pipeline is saved as ."@ + listed(pipeline_exts())
}

/// Whether a pipeline may be written to `path`: only under a pipeline's own extension, so saving
/// can never overwrite a container or anything else that happened to be chosen.
pub fn check_destination(path: &str) -> (r: Result<(), ProjectError>)
    ensures
        r is Ok <==> names_pipeline(path@),
        r matches Err(e) ==> e matches ProjectError::NotAPipeline(m) && m@ == not_a_pipeline(path@),
{
    if is_pipeline(path) {
        return Ok(());
    }
    let exts = pipeline_extensions();
    let mut m = owned("cannot write ");
    push_str(&mut m, path);
    push_str(&mut m, ": a pipeline is saved as .");
    let ghost head = m@;
    let mut i: usize = 0;
    while i < exts.len()
        invariant
            i <= exts@.len(),
            strs(exts@) == pipeline_exts(),
            m@ == head + listed(strs(exts@).take(i as int)),
        decreases exts@.len() - i,
    {
        proof {
            assert(strs(exts@).take(i as int + 1).drop_last() =~= strs(exts@).take(i as int));
            assert(strs(exts@).take(i as int + 1).last() == exts@[i as int]@);
        }
        if i > 0 {
            push_str(&mut m, " or .");
        }
        push_str(&mut m, exts[i]);
        proof {
            if i == 0 {
                assert(strs(exts@).take(1)[0] == exts@[0]@);
            }
        }
        i = i + 1;
    }
    proof {
        assert(strs(exts@).take(i as int) =~= strs(exts@));
    }
    Err(ProjectError::NotAPipeline(m))
}

/// The components of `file` that name something: empty ones and `.` are passed over.
pub open spec fn named_components(parts: Seq<Seq<char>>) -> nat
    decreases parts.len(),
{
    if parts.len() == 0 {
        0
    } else {
        named_components(parts.drop_last())
            + (if parts.last().len() == 0 || parts.last() == seq!['.'] { 0nat } else { 1nat })
    }
}

/// Whether `file`, joined to the project directory, is a file directly in it: relative, and one
/// component once empty ones and `.` are passed over.
pub open spec fn directly_inside(file: Seq<char>) -> bool {
    !(file.len() > 0 && file[0] == '/') && named_components(split_slash(file)) == 1
}

/// The first file, from the `i`-th on, that is not directly inside.
pub open spec fn first_outside(files: Seq<Seq<char>>, i: int) -> Option<int>
    decreases files.len() - i,
{
    if i < 0 || i >= files.len() {
        None
    } else if !directly_inside(files[i]) {
        Some(i)
    } else {
        first_outside(files, i + 1)
    }
}

/// Whether `file`, joined to the project directory, is a file directly in it; see
/// [`directly_inside`].
pub fn file_is_inside(file: &str) -> (b: bool)
    ensures
        b == directly_inside(file@),
{
    let chars = crate::text::chars_of(file);
    if chars.len() > 0 && chars[0] == '/' {
        return false;
    }
    let parts = crate::bundle::parts_of(file);
    let mut named: usize = 0;
    let mut i: usize = 0;
    while i < parts.len()
        invariant
            i <= parts@.len(),
            named <= i,
            named == named_components(texts(parts@).take(i as int)),
        decreases parts@.len() - i,
    {
        proof {
            assert(texts(parts@).take(i as int + 1).drop_last() =~= texts(parts@).take(i as int));
            assert(texts(parts@).take(i as int + 1).last() == parts@[i as int]@);
        }
        let part = parts[i].as_str();
        if part.is_empty() || crate::text::same_text(part, ".") {
            proof {
                reveal_strlit(".");
                assert(part@.len() == 0 || part@ =~= seq!['.']);
            }
        } else {
            proof {
                reveal_strlit(".");
                assert(part@ != seq!['.']) by {
                    if part@ == seq!['.'] { assert(part@ =~= "."@); }
                }
            }
            named = named + 1;
        }
        i = i + 1;
    }
    proof {
        assert(texts(parts@).take(i as int) =~= texts(parts@));
    }
    named == 1
}

pub open spec fn files_of(graphs: Seq<GraphRef>) -> Seq<Seq<char>> {
    graphs.map_values(|g: GraphRef| g.file@)
}

/// Whether a manifest may be read: a version this library knows, and every graph's file directly in
/// the project directory. The first problem found is the one reported.
///
/// A graph whose file is missing is the reader's error to report; this decides only what may be
/// read at all, because a manifest is data, and data that names files decides what gets read.
pub fn check_manifest(manifest: &Manifest) -> (r: Result<(), ProjectError>)
    ensures
        manifest.version > MANIFEST_VERSION ==> r == Err::<(), ProjectError>(ProjectError::LaterVersion(manifest.version)),
        manifest.version <= MANIFEST_VERSION ==> match first_outside(files_of(manifest.graphs@), 0) {
            Some(i) => r matches Err(ProjectError::Outside(f)) && f@ == files_of(manifest.graphs@)[i],
            None => r is Ok,
        },
{
    if manifest.version > MANIFEST_VERSION {
        return Err(ProjectError::LaterVersion(manifest.version));
    }
    let ghost files = files_of(manifest.graphs@);
    let mut i: usize = 0;
    while i < manifest.graphs.len()
        invariant
            i <= manifest.graphs@.len(),
            manifest.version <= MANIFEST_VERSION,
            files == files_of(manifest.graphs@),
            first_outside(files, 0) == first_outside(files, i as int),
        decreases manifest.graphs@.len() - i,
    {
        let file = manifest.graphs[i].file.as_str();
        proof {
            assert(files[i as int] == file@);
        }
        if !file_is_inside(file) {
            return Err(ProjectError::Outside(owned(file)));
        }
        i = i + 1;
    }
    Ok(())
}

} // verus!
