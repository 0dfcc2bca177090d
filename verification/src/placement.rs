//! Where a local transfer goes: what the destination path means for a source,
//! what it replaces, and what is backed up first.

use crate::domain::{DstObjKind, SrcObjKind, TransferMode};
use crate::paths;
use crate::text;
use vstd::prelude::*;

verus! {

/// What the caller asked for.
#[derive(Clone, Copy, Debug)]
pub struct LocalOptions {
    pub overwrite: bool,
    pub force: bool,
    pub sync: bool,
    pub backup: bool,
    pub contents_requested: bool,
    pub glob_contents: bool,
}

/// The two ends of a transfer as the file system shows them. The `_real` paths
/// are resolved through symbolic links, as far as they exist.
#[derive(Debug)]
pub struct LocalEnds {
    pub source: String,
    pub source_kind: SrcObjKind,
    /// The source, resolved.
    pub source_real: String,
    /// The directory that holds the source, resolved.
    pub source_parent_real: String,
    pub destination: String,
    pub destination_kind: DstObjKind,
    /// The destination as it was typed.
    pub destination_display: String,
    pub destination_real: String,
    /// The source's name inside the destination, resolved.
    pub slot_real: String,
}

/// Why a placement is refused.
#[derive(Clone, Copy, Debug, PartialEq, Eq, Structural)]
pub enum PlacementError {
    /// Only directories can be synchronised.
    SyncNeedsDirectory,
    /// The destination is the source or one of its ancestors.
    Overlap,
    /// What would be overwritten is the source.
    OverwritesSource,
}

/// The message for a refusal.
pub open spec fn error_text(e: PlacementError) -> Seq<char> {
    match e {
        PlacementError::SyncNeedsDirectory => "--sync currently supports directory sources only."@,
        PlacementError::Overlap =>
            "Source and destination overlap; refusing ancestor replacement."@,
        PlacementError::OverwritesSource => "Refusing to overwrite source directory itself."@,
    }
}

impl PlacementError {
    pub fn message(self) -> (r: &'static str)
        ensures
            r@ == error_text(self),
    {
        match self {
            PlacementError::SyncNeedsDirectory => {
                "--sync currently supports directory sources only."
            },
            PlacementError::Overlap => {
                "Source and destination overlap; refusing ancestor replacement."
            },
            PlacementError::OverwritesSource => "Refusing to overwrite source directory itself.",
        }
    }
}

/// An existing directory, into which things go under their own names.
pub open spec fn into_directory(kind: DstObjKind) -> bool {
    kind == DstObjKind::Dir || kind == DstObjKind::DirExisting
}

pub open spec fn is_dir_source(e: LocalEnds) -> bool {
    e.source_kind == SrcObjKind::Dir
}

/// The destination relative to the source, where it lies strictly inside it.
pub open spec fn descendant(q: LocalOptions, e: LocalEnds) -> Option<Seq<char>> {
    let rel = text::joined(paths::below(e.destination_real@, e.source@), "/"@);
    if is_dir_source(e) && (into_directory(e.destination_kind) || e.destination_kind
        == DstObjKind::DirNew) && !q.overwrite && !paths::same_path(e.destination_real@, e.source@)
        && paths::under(e.destination_real@, e.source@) && rel.len() > 0 {
        Some(rel)
    } else {
        None
    }
}

/// Whether the contents of the source count, not the source itself.
pub open spec fn contents_mode(q: LocalOptions, e: LocalEnds) -> bool {
    (q.contents_requested || descendant(q, e) is Some) && is_dir_source(e)
}

/// Whether the source was named by its contents.
pub open spec fn source_contents(q: LocalOptions, e: LocalEnds) -> bool {
    (q.glob_contents && !q.force || descendant(q, e) is Some) && is_dir_source(e)
}

/// Whether a path is typed as a reference to a directory: it ends in a slash,
/// `.` or `..`.
pub open spec fn is_dir_ref(display: Seq<char>) -> bool {
    let tail = text::split_on(text::trim_end_char(display, '/'), '/').last();
    display.len() > 0 && display.last() == '/' || tail.len() == 0 || tail == "."@ || tail == ".."@
}

/// Tests whether a path is typed as a reference to a directory.
pub fn typed_as_directory(display: &str) -> (r: bool)
    ensures
        r == is_dir_ref(display@),
{
    let chars = text::to_chars(display);
    let trimmed = text::trim_end(chars.as_slice(), '/');
    let pieces = text::split(trimmed.as_slice(), '/');
    proof {
        text::lemma_split_on_nonempty(trimmed@, '/');
        assert(text::rows(pieces@).len() == pieces@.len());
    }
    let tail = &pieces[pieces.len() - 1];
    assert(text::rows(pieces@).last() == tail@);
    (chars.len() > 0 && chars[chars.len() - 1] == '/') || tail.len() == 0 || text::is_text(
        tail.as_slice(),
        ".",
    ) || text::is_text(tail.as_slice(), "..")
}

pub open spec fn same_names(e: LocalEnds) -> bool {
    paths::last_name(e.source@) == paths::last_name(e.destination@)
}

/// The source already has its place inside the destination.
pub open spec fn slot_is_source(e: LocalEnds) -> bool {
    is_dir_source(e) && into_directory(e.destination_kind) && paths::same_path(
        e.slot_real@,
        e.source@,
    )
}

/// The source's place inside the destination is the directory that holds it.
pub open spec fn slot_is_parent(e: LocalEnds) -> bool {
    is_dir_source(e) && into_directory(e.destination_kind) && !paths::same_path(
        e.slot_real@,
        e.source@,
    ) && paths::same_path(e.slot_real@, e.source_parent_real@)
}

/// Whether the source's entries go up into the directory that holds it.
pub open spec fn merges_child(q: LocalOptions, e: LocalEnds) -> bool {
    q.force && !source_contents(q, e) && (slot_is_source(e) && same_names(e) || slot_is_parent(e))
}

/// Whether the source replaces the directory that holds it.
pub open spec fn replaces_parent(q: LocalOptions, e: LocalEnds) -> bool {
    q.overwrite && !source_contents(q, e) && slot_is_source(e) && !same_names(e) && !is_dir_ref(
        e.destination_display@,
    )
}

/// Whether there is nothing to do, the source being where it is to go.
pub open spec fn already_there(q: LocalOptions, e: LocalEnds) -> bool {
    (slot_is_source(e) || slot_is_parent(e)) && !replaces_parent(q, e) && !(q.force
        && !source_contents(q, e))
}

/// Whether the destination is the source or one of its ancestors, and nothing
/// above provides for that.
pub open spec fn overlaps(q: LocalOptions, e: LocalEnds) -> bool {
    is_dir_source(e) && !already_there(q, e) && !merges_child(q, e) && !replaces_parent(q, e) && (
    paths::same_path(e.source_real@, e.destination_real@) || !paths::same_path(
        e.destination_real@,
        "/"@,
    ) && paths::under(e.source_real@, e.destination_real@))
}

/// Whether an existing directory is named as if it were the new name.
pub open spec fn names_existing(q: LocalOptions, e: LocalEnds) -> bool {
    is_dir_source(e) && e.destination_kind == DstObjKind::DirExisting && !source_contents(q, e)
        && !is_dir_ref(e.destination_display@) && !same_names(e)
}

/// Whether the destination directory itself is replaced by the source.
pub open spec fn replaces_directory(q: LocalOptions, e: LocalEnds) -> bool {
    replaces_parent(q, e) || q.overwrite && q.force && names_existing(q, e)
}

/// Whether an existing file is replaced by the source directory.
pub open spec fn replaces_file(q: LocalOptions, e: LocalEnds) -> bool {
    q.overwrite && is_dir_source(e) && e.destination_kind == DstObjKind::FileExistingForDir
        && !source_contents(q, e)
}

/// Whether the source's entries are merged into the destination directory.
pub open spec fn forces_merge(q: LocalOptions, e: LocalEnds) -> bool {
    q.force && is_dir_source(e) && into_directory(e.destination_kind) && !source_contents(q, e)
        && !already_there(q, e) && !replaces_directory(q, e)
}

/// Whether the transfer lands on the destination path itself, not below it.
pub open spec fn lands_on_destination(q: LocalOptions, e: LocalEnds) -> bool {
    if into_directory(e.destination_kind) {
        replaces_directory(q, e) || forces_merge(q, e) || merges_child(q, e)
    } else {
        e.destination_kind != DstObjKind::DirNew || is_dir_source(e)
    }
}

/// The directory in which the transfer's result gets its name.
pub open spec fn target_dir(q: LocalOptions, e: LocalEnds) -> Option<Seq<char>> {
    if lands_on_destination(q, e) {
        paths::parent_of(e.destination@)
    } else if into_directory(e.destination_kind) {
        Some(e.destination@)
    } else {
        None
    }
}

/// The path at which the transfer's result stands in the way of what is there.
pub open spec fn conflict_path(q: LocalOptions, e: LocalEnds) -> Option<Seq<char>> {
    let name = if lands_on_destination(q, e) {
        paths::last_name(e.destination@)
    } else if into_directory(e.destination_kind) {
        paths::last_name(e.source@)
    } else {
        None
    };
    match (target_dir(q, e), name) {
        (Some(d), Some(n)) => Some(paths::joined_path(d, n)),
        _ => None,
    }
}

/// Whether the source is handed on with a trailing slash: its entries move, not
/// the directory.
pub open spec fn by_entries(q: LocalOptions, e: LocalEnds) -> bool {
    is_dir_source(e) && (replaces_directory(q, e) || replaces_file(q, e) || source_contents(q, e)
        || forces_merge(q, e) || e.destination_kind == DstObjKind::DirNew || merges_child(q, e))
}

/// Whether the source directory gets the destination's name.
pub open spec fn renames_directory(q: LocalOptions, e: LocalEnds) -> bool {
    is_dir_source(e) && !source_contents(q, e) && (replaces_directory(q, e) || replaces_file(q, e)
        || !q.force && e.destination_kind == DstObjKind::DirNew)
}

/// What the two ends of a transfer mean together.
#[derive(Debug)]
pub struct Placement {
    pub contents_mode: bool,
    pub source_contents: bool,
    pub exclude_rel: Option<String>,
    pub already_there: bool,
    pub merges_child: bool,
    pub replaces_parent: bool,
    pub replaces_directory: bool,
    pub replaces_file: bool,
    pub forces_merge: bool,
    pub renames_directory: bool,
    pub target_dir: Option<String>,
    pub conflict_path: Option<String>,
    /// The source keeps its name below the destination.
    pub include_source_root: bool,
    pub source_path: String,
    pub destination_path: String,
    pub source_argument: String,
    pub destination_argument: String,
}

/// A path, with a slash behind it on request.
pub open spec fn argument_text(path: Seq<char>, slash: bool) -> Seq<char> {
    if slash && path.len() > 0 {
        path.push('/')
    } else {
        path
    }
}

/// A path without its trailing slashes, or with exactly one.
pub open spec fn slashed(path: Seq<char>, slash: bool) -> Seq<char> {
    if slash {
        text::trim_end_char(path, '/').push('/')
    } else {
        text::trim_end_char(path, '/')
    }
}

/// Whether the destination is handed on with a trailing slash.
pub open spec fn destination_slash(q: LocalOptions, e: LocalEnds) -> bool {
    into_directory(e.destination_kind) && !replaces_directory(q, e)
}

pub open spec fn is_placement(p: Placement, q: LocalOptions, e: LocalEnds) -> bool {
    &&& p.contents_mode == contents_mode(q, e)
    &&& p.source_contents == source_contents(q, e)
    &&& paths::opt_text(p.exclude_rel) == descendant(q, e)
    &&& p.already_there == already_there(q, e)
    &&& p.merges_child == merges_child(q, e)
    &&& p.replaces_parent == replaces_parent(q, e)
    &&& p.replaces_directory == replaces_directory(q, e)
    &&& p.replaces_file == replaces_file(q, e)
    &&& p.forces_merge == forces_merge(q, e)
    &&& p.renames_directory == renames_directory(q, e)
    &&& paths::opt_text(p.target_dir) == target_dir(q, e)
    &&& paths::opt_text(p.conflict_path) == conflict_path(q, e)
    &&& p.include_source_root == (is_dir_source(e) && !by_entries(q, e))
    &&& p.source_path@ == (if is_dir_source(e) {
        slashed(e.source@, by_entries(q, e))
    } else {
        e.source@
    })
    &&& p.destination_path@ == slashed(e.destination@, destination_slash(q, e))
    &&& p.source_argument@ == argument_text(e.source@, by_entries(q, e))
    &&& p.destination_argument@ == argument_text(e.destination@, destination_slash(q, e))
}

/// Writes a path as a transfer argument.
pub fn transfer_path_arg(path: &str, trailing_slash: bool) -> (r: String)
    ensures
        r@ == argument_text(path@, trailing_slash),
{
    let mut chars = text::to_chars(path);
    if trailing_slash && chars.len() > 0 {
        chars.push('/');
    }
    text::from_chars(chars.as_slice())
}

/// Writes a path without trailing slashes or with one.
pub fn with_slash(path: &str, slash: bool) -> (r: String)
    ensures
        r@ == slashed(path@, slash),
{
    let mut chars = text::trim_end(text::to_chars(path).as_slice(), '/');
    if slash {
        chars.push('/');
    }
    text::from_chars(chars.as_slice())
}

fn copied(s: &String) -> (r: String)
    ensures
        r@ == s@,
{
    s.clone()
}

fn equal_names(a: &Option<String>, b: &Option<String>) -> (r: bool)
    ensures
        r == (paths::opt_text(*a) == paths::opt_text(*b)),
{
    match (a, b) {
        (Some(x), Some(y)) => text::equal(x.as_str(), y.as_str()),
        (None, None) => true,
        _ => false,
    }
}

/// Decides what the two ends mean together, or refuses.
pub fn place(q: LocalOptions, e: &LocalEnds) -> (r: Result<Placement, PlacementError>)
    ensures
        match r {
            Ok(p) => is_placement(p, q, *e) && !(q.sync && !is_dir_source(*e)) && !overlaps(q, *e),
            Err(PlacementError::SyncNeedsDirectory) => q.sync && !is_dir_source(*e),
            Err(PlacementError::Overlap) => !(q.sync && !is_dir_source(*e)) && overlaps(q, *e),
            Err(PlacementError::OverwritesSource) => false,
        },
{
    let dir = match e.source_kind {
        SrcObjKind::Dir => true,
        SrcObjKind::File => false,
    };
    if q.sync && !dir {
        return Err(PlacementError::SyncNeedsDirectory);
    }
    let (into, fresh, existing, file_for_dir) = match e.destination_kind {
        DstObjKind::Dir => (true, false, false, false),
        DstObjKind::DirExisting => (true, false, true, false),
        DstObjKind::DirNew => (false, true, false, false),
        DstObjKind::File => (false, false, false, false),
        DstObjKind::FileExistingForDir => (false, false, false, true),
    };
    let source = e.source.as_str();
    let destination = e.destination.as_str();
    let exclude_rel = if dir && (into || fresh) && !q.overwrite && !paths::paths_equal(
        e.destination_real.as_str(),
        source,
    ) {
        match paths::relative_to(e.destination_real.as_str(), source) {
            Some(rel) => if rel.as_str().is_empty() {
                None
            } else {
                Some(rel)
            },
            None => None,
        }
    } else {
        None
    };
    assert(paths::opt_text(exclude_rel) == descendant(q, *e));
    let inside = exclude_rel.is_some();
    let contents = (q.contents_requested || inside) && dir;
    let source_contents = ((q.glob_contents && !q.force) || inside) && dir;
    let dir_ref = typed_as_directory(e.destination_display.as_str());
    let source_name = paths::file_name(source);
    let destination_name = paths::file_name(destination);
    let same_names = equal_names(&source_name, &destination_name);
    let slot_source = dir && into && paths::paths_equal(e.slot_real.as_str(), source);
    let slot_parent = dir && into && !slot_source && paths::paths_equal(
        e.slot_real.as_str(),
        e.source_parent_real.as_str(),
    );
    let merges_child = q.force && !source_contents && ((slot_source && same_names) || slot_parent);
    let replaces_parent = q.overwrite && !source_contents && slot_source && !same_names && !dir_ref;
    let already_there = (slot_source || slot_parent) && !replaces_parent && !(q.force
        && !source_contents);
    if dir && !already_there && !merges_child && !replaces_parent {
        let same = paths::paths_equal(e.source_real.as_str(), e.destination_real.as_str());
        if same || (!paths::paths_equal(e.destination_real.as_str(), "/") && paths::path_under(
            e.source_real.as_str(),
            e.destination_real.as_str(),
        )) {
            return Err(PlacementError::Overlap);
        }
    }
    let names_existing = dir && existing && !source_contents && !dir_ref && !same_names;
    let replaces_directory = replaces_parent || (q.overwrite && q.force && names_existing);
    let replaces_file = q.overwrite && dir && file_for_dir && !source_contents;
    let forces_merge = q.force && dir && into && !source_contents && !already_there
        && !replaces_directory;
    let lands = if into {
        replaces_directory || forces_merge || merges_child
    } else {
        !fresh || dir
    };
    assert(lands == lands_on_destination(q, *e));
    let (target, name) = if lands {
        (paths::parent(destination), destination_name)
    } else if into {
        (Some(copied(&e.destination)), source_name)
    } else {
        (None, None)
    };
    let conflict = match (&target, &name) {
        (Some(d), Some(n)) => Some(paths::join_path(d.as_str(), n.as_str())),
        _ => None,
    };
    let by_entries = dir && (replaces_directory || replaces_file || source_contents || forces_merge
        || fresh || merges_child);
    let renames_directory = dir && !source_contents && (replaces_directory || replaces_file || (
    !q.force && fresh));
    let slash = into && !replaces_directory;
    Ok(
        Placement {
            contents_mode: contents,
            source_contents,
            exclude_rel,
            already_there,
            merges_child,
            replaces_parent,
            replaces_directory,
            replaces_file,
            forces_merge,
            renames_directory,
            target_dir: target,
            conflict_path: conflict,
            include_source_root: dir && !by_entries,
            source_path: if dir {
                with_slash(source, by_entries)
            } else {
                copied(&e.source)
            },
            destination_path: with_slash(destination, slash),
            source_argument: transfer_path_arg(source, by_entries),
            destination_argument: transfer_path_arg(destination, slash),
        },
    )
}

/// A copy or move never replaces an ancestor of its source unless the request
/// provides for it: an accepted placement whose destination holds the source
/// has the source in place already, merges it upwards, or replaces the one
/// directory that holds it.
pub proof fn law_ancestors_are_protected(q: LocalOptions, e: LocalEnds)
    requires
        is_dir_source(e),
        !overlaps(q, e),
        !paths::same_path(e.destination_real@, "/"@),
        paths::under(e.source_real@, e.destination_real@),
    ensures
        already_there(q, e) || merges_child(q, e) || replaces_parent(q, e),
{
}

/// A source that is in place already is neither merged nor put in the place of
/// anything.
pub proof fn law_in_place_means_untouched(q: LocalOptions, e: LocalEnds)
    requires
        already_there(q, e),
    ensures
        !merges_child(q, e),
        !forces_merge(q, e),
        !replaces_directory(q, e),
        !replaces_file(q, e),
{
}

/// What an existing destination is.
#[derive(Clone, Copy, Debug, PartialEq, Eq, Structural)]
pub enum ObjectKind {
    Dir,
    File,
}

/// An existing path, resolved.
#[derive(Debug)]
pub struct Existing {
    pub path: String,
    pub kind: ObjectKind,
}

/// The model of an existing path.
pub struct ExistingModel {
    pub path: Seq<char>,
    pub kind: ObjectKind,
}

pub open spec fn existing_model(x: Option<Existing>) -> Option<ExistingModel> {
    match x {
        Some(x) => Some(ExistingModel { path: x.path@, kind: x.kind }),
        None => None,
    }
}

/// What is removed to make room. `slot_dir` is the directory of the source's
/// name inside the destination, resolved, if there is one.
pub open spec fn overwritten(q: LocalOptions, e: LocalEnds, slot_dir: Option<Seq<char>>) -> Option<
    ExistingModel,
> {
    if replaces_directory(q, e) {
        Some(ExistingModel { path: e.destination_real@, kind: ObjectKind::Dir })
    } else if replaces_file(q, e) {
        Some(ExistingModel { path: e.destination_real@, kind: ObjectKind::File })
    } else if q.overwrite && is_dir_source(e) && into_directory(e.destination_kind)
        && !source_contents(q, e) && !merges_child(q, e) && !already_there(q, e)
        && paths::last_name(e.source@) is Some && slot_dir is Some {
        Some(ExistingModel { path: slot_dir->0, kind: ObjectKind::Dir })
    } else {
        None
    }
}

fn is_into(kind: DstObjKind) -> (r: bool)
    ensures
        r == into_directory(kind),
{
    match kind {
        DstObjKind::Dir => true,
        DstObjKind::DirExisting => true,
        _ => false,
    }
}

fn is_dir(e: &LocalEnds) -> (r: bool)
    ensures
        r == is_dir_source(*e),
{
    match e.source_kind {
        SrcObjKind::Dir => true,
        SrcObjKind::File => false,
    }
}

/// Decides what is removed to make room, and refuses to remove the source.
pub fn overwrite_target(p: &Placement, q: LocalOptions, e: &LocalEnds, slot_dir: Option<&str>) -> (r:
    Result<Option<Existing>, PlacementError>)
    requires
        is_placement(*p, q, *e),
    ensures
        ({
            let slot = match slot_dir {
                Some(s) => Some(s@),
                None => None,
            };
            let target = overwritten(q, *e, slot);
            match r {
                Ok(t) => existing_model(t) == target && (target is Some ==> !paths::same_path(
                    target->0.path,
                    e.source@,
                )),
                Err(error) => error == PlacementError::OverwritesSource && target is Some
                    && paths::same_path(target->0.path, e.source@),
            }
        }),
{
    let target = if p.replaces_directory {
        Some(Existing { path: copied(&e.destination_real), kind: ObjectKind::Dir })
    } else if p.replaces_file {
        Some(Existing { path: copied(&e.destination_real), kind: ObjectKind::File })
    } else if q.overwrite && is_dir(e) && is_into(e.destination_kind) && !p.source_contents
        && !p.merges_child && !p.already_there && paths::file_name(e.source.as_str()).is_some() {
        match slot_dir {
            Some(s) => Some(
                Existing {
                    path: text::copy(s),
                    kind: ObjectKind::Dir,
                },
            ),
            None => None,
        }
    } else {
        None
    };
    match target {
        Some(t) => if paths::paths_equal(t.path.as_str(), e.source.as_str()) {
            Err(PlacementError::OverwritesSource)
        } else {
            Ok(Some(t))
        },
        None => Ok(None),
    }
}

/// Which of the words of the mode line are lit.
#[derive(Clone, Copy, Debug, PartialEq, Eq, Structural)]
pub struct ModeFlags {
    pub merge: bool,
    pub overwrite: bool,
}

/// What happens to something of the same name in the way.
pub open spec fn modes(q: LocalOptions, e: LocalEnds, overwrites: bool, conflict: bool) -> ModeFlags {
    let over = overwrites || conflict && q.overwrite;
    if already_there(q, e) {
        ModeFlags { merge: false, overwrite: false }
    } else if is_dir_source(e) {
        ModeFlags { merge: !over && (forces_merge(q, e) || conflict), overwrite: over }
    } else {
        ModeFlags { merge: false, overwrite: conflict }
    }
}

/// Decides between merging and overwriting.
pub fn mode_flags(p: &Placement, q: LocalOptions, e: &LocalEnds, overwrites: bool, conflict: bool) -> (r:
    ModeFlags)
    requires
        is_placement(*p, q, *e),
    ensures
        r == modes(q, *e, overwrites, conflict),
{
    let over = overwrites || (conflict && q.overwrite);
    if p.already_there {
        ModeFlags { merge: false, overwrite: false }
    } else if is_dir(e) {
        ModeFlags { merge: !over && (p.forces_merge || conflict), overwrite: over }
    } else {
        ModeFlags { merge: false, overwrite: conflict }
    }
}

/// The root of what a synchronisation changes.
pub open spec fn sync_root_of(q: LocalOptions, e: LocalEnds) -> Seq<char> {
    if !source_contents(q, e) && into_directory(e.destination_kind) {
        paths::joined_path(
            e.destination@,
            match paths::last_name(e.source@) {
                Some(n) => n,
                None => Seq::empty(),
            },
        )
    } else {
        e.destination@
    }
}

/// Finds the root of what a synchronisation changes.
pub fn sync_root(p: &Placement, q: LocalOptions, e: &LocalEnds) -> (r: String)
    requires
        is_placement(*p, q, *e),
    ensures
        r@ == sync_root_of(q, *e),
{
    if !p.source_contents && is_into(e.destination_kind) {
        match paths::file_name(e.source.as_str()) {
            Some(n) => paths::join_path(e.destination.as_str(), n.as_str()),
            None => {
                let name = "";
                assert(name@ == Seq::<char>::empty()) by {
                    reveal_strlit("");
                }
                paths::join_path(e.destination.as_str(), name)
            },
        }
    } else {
        copied(&e.destination)
    }
}

/// What is backed up before the transfer. `at_sync_root` and `at_conflict` are
/// what exists, resolved, at the root of a synchronisation and at the conflict
/// path.
pub open spec fn backed_up(
    q: LocalOptions,
    e: LocalEnds,
    target: Option<ExistingModel>,
    flags: ModeFlags,
    at_sync_root: Option<ExistingModel>,
    at_conflict: Option<ExistingModel>,
) -> Option<ExistingModel> {
    let found = if q.sync {
        at_sync_root
    } else if flags.merge || flags.overwrite {
        at_conflict
    } else {
        None
    };
    if !q.backup || already_there(q, e) {
        None
    } else if !q.sync && target is Some {
        target
    } else if found is Some && !paths::same_path(found->0.path, e.source@) {
        found
    } else {
        None
    }
}

fn copy_existing(x: &Option<Existing>) -> (r: Option<Existing>)
    ensures
        existing_model(r) == existing_model(*x),
{
    match x {
        Some(x) => Some(Existing { path: copied(&x.path), kind: x.kind }),
        None => None,
    }
}

/// Chooses what is backed up before the transfer.
pub fn backup_source(
    p: &Placement,
    q: LocalOptions,
    e: &LocalEnds,
    target: &Option<Existing>,
    flags: ModeFlags,
    at_sync_root: &Option<Existing>,
    at_conflict: &Option<Existing>,
) -> (r: Option<Existing>)
    requires
        is_placement(*p, q, *e),
    ensures
        existing_model(r) == backed_up(
            q,
            *e,
            existing_model(*target),
            flags,
            existing_model(*at_sync_root),
            existing_model(*at_conflict),
        ),
{
    if !q.backup || p.already_there {
        return None;
    }
    if !q.sync && target.is_some() {
        return copy_existing(target);
    }
    let found = if q.sync {
        at_sync_root
    } else if flags.merge || flags.overwrite {
        at_conflict
    } else {
        return None;
    };
    match found {
        Some(x) => if paths::paths_equal(x.path.as_str(), e.source.as_str()) {
            None
        } else {
            Some(Existing { path: copied(&x.path), kind: x.kind })
        },
        None => None,
    }
}

/// The source is never what is backed up, given that it is not what is
/// overwritten.
pub proof fn law_backup_is_not_the_source(
    q: LocalOptions,
    e: LocalEnds,
    target: Option<ExistingModel>,
    flags: ModeFlags,
    at_sync_root: Option<ExistingModel>,
    at_conflict: Option<ExistingModel>,
)
    requires
        target is Some ==> !paths::same_path(target->0.path, e.source@),
    ensures
        ({
            let saved = backed_up(q, e, target, flags, at_sync_root, at_conflict);
            saved is Some ==> !paths::same_path(saved->0.path, e.source@)
        }),
{
}

/// How the transfer changes the name of its source.
#[derive(Debug)]
pub enum Renaming {
    /// It does not.
    Same,
    /// Another name in the same directory.
    Simple { from: String, to: String, parent: String },
    /// Another directory, and the name there.
    Target { name: String, is_dir: bool },
}

/// The model of a renaming.
pub enum RenamingModel {
    Same,
    Simple { from: Seq<char>, to: Seq<char>, parent: Seq<char> },
    Target { name: Seq<char>, is_dir: bool },
}

impl View for Renaming {
    type V = RenamingModel;

    open spec fn view(&self) -> RenamingModel {
        match self {
            Renaming::Same => RenamingModel::Same,
            Renaming::Simple { from, to, parent } => RenamingModel::Simple {
                from: from@,
                to: to@,
                parent: parent@,
            },
            Renaming::Target { name, is_dir } => RenamingModel::Target {
                name: name@,
                is_dir: *is_dir,
            },
        }
    }
}

pub open spec fn or_text(x: Option<Seq<char>>, other: Seq<char>) -> Seq<char> {
    match x {
        Some(s) => s,
        None => other,
    }
}

/// How the transfer changes the name of its source.
pub open spec fn renaming_of(q: LocalOptions, e: LocalEnds) -> RenamingModel {
    let from = or_text(paths::last_name(e.source@), Seq::empty());
    let to = or_text(paths::last_name(e.destination@), Seq::empty());
    let from_dir = or_text(paths::parent_of(e.source@), "/"@);
    let to_dir = or_text(paths::parent_of(e.destination@), "/"@);
    let dir = is_dir_source(e);
    let applies = if dir {
        renames_directory(q, e)
    } else {
        e.destination_kind == DstObjKind::File
    };
    if !applies || from.len() == 0 || to.len() == 0 {
        RenamingModel::Same
    } else if paths::same_path(from_dir, to_dir) && from != to {
        RenamingModel::Simple { from, to, parent: from_dir }
    } else if dir || !paths::same_path(from_dir, to_dir) || from != to {
        RenamingModel::Target { name: to, is_dir: dir }
    } else {
        RenamingModel::Same
    }
}

fn name_or_empty(path: &str) -> (r: String)
    ensures
        r@ == or_text(paths::last_name(path@), Seq::empty()),
{
    match paths::file_name(path) {
        Some(n) => n,
        None => {
            let r = String::new();
            assert(r@ == Seq::<char>::empty());
            r
        },
    }
}

fn parent_or_root(path: &str) -> (r: String)
    ensures
        r@ == or_text(paths::parent_of(path@), "/"@),
{
    match paths::parent(path) {
        Some(n) => n,
        None => text::copy("/"),
    }
}

/// Finds how the transfer changes the name of its source.
pub fn renaming(p: &Placement, q: LocalOptions, e: &LocalEnds) -> (r: Renaming)
    requires
        is_placement(*p, q, *e),
    ensures
        r@ == renaming_of(q, *e),
{
    let from = name_or_empty(e.source.as_str());
    let to = name_or_empty(e.destination.as_str());
    let from_dir = parent_or_root(e.source.as_str());
    let to_dir = parent_or_root(e.destination.as_str());
    let dir = is_dir(e);
    let applies = if dir {
        p.renames_directory
    } else {
        match e.destination_kind {
            DstObjKind::File => true,
            _ => false,
        }
    };
    if !applies || from.as_str().is_empty() || to.as_str().is_empty() {
        return Renaming::Same;
    }
    let same_dir = paths::paths_equal(from_dir.as_str(), to_dir.as_str());
    let same_name = text::equal(from.as_str(), to.as_str());
    if same_dir && !same_name {
        Renaming::Simple { from, to, parent: from_dir }
    } else if dir || !same_dir || !same_name {
        Renaming::Target { name: to, is_dir: dir }
    } else {
        Renaming::Same
    }
}

/// The directory whose contents the preview shows.
pub open spec fn preview_root_of(q: LocalOptions, e: LocalEnds) -> Seq<char> {
    let own = into_directory(e.destination_kind) || e.destination_kind == DstObjKind::DirNew;
    let path = match renaming_of(q, e) {
        RenamingModel::Simple { parent, .. } => parent,
        RenamingModel::Target { is_dir, .. } => if is_dir && own {
            e.destination@
        } else {
            or_text(paths::parent_of(e.destination@), "/"@)
        },
        RenamingModel::Same => if own {
            e.destination@
        } else {
            or_text(paths::parent_of(e.destination@), "/"@)
        },
    };
    argument_text(path, true)
}

/// Finds the directory whose contents the preview shows.
pub fn preview_root(p: &Placement, q: LocalOptions, e: &LocalEnds, renaming: &Renaming) -> (r: String)
    requires
        is_placement(*p, q, *e),
        renaming@ == renaming_of(q, *e),
    ensures
        r@ == preview_root_of(q, *e),
{
    let own = match e.destination_kind {
        DstObjKind::File => false,
        DstObjKind::FileExistingForDir => false,
        _ => true,
    };
    let path = match renaming {
        Renaming::Simple { parent, .. } => copied(parent),
        Renaming::Target { is_dir, .. } => if *is_dir && own {
            copied(&e.destination)
        } else {
            parent_or_root(e.destination.as_str())
        },
        Renaming::Same => if own {
            copied(&e.destination)
        } else {
            parent_or_root(e.destination.as_str())
        },
    };
    transfer_path_arg(path.as_str(), true)
}

/// Where a plain rename would put the source, if one can do the whole move.
pub open spec fn rename_target_of(
    q: LocalOptions,
    e: LocalEnds,
    mode: TransferMode,
    sudo: bool,
    overwrite_needed: bool,
    cleanup_only: bool,
) -> Option<Seq<char>> {
    let fresh_dir = is_dir_source(e) && e.destination_kind == DstObjKind::DirNew;
    if mode == TransferMode::Copy || sudo || q.backup || overwrite_needed || cleanup_only
        || source_contents(q, e) || contents_mode(q, e) && !fresh_dir || merges_child(q, e)
        || replaces_directory(q, e) || replaces_file(q, e) {
        None
    } else if into_directory(e.destination_kind) {
        match paths::last_name(e.source@) {
            Some(n) => Some(paths::joined_path(e.destination@, n)),
            None => None,
        }
    } else if !is_dir_source(e) || fresh_dir {
        Some(e.destination@)
    } else {
        None
    }
}

/// Finds where a plain rename would put the source.
pub fn fast_rename_target(
    p: &Placement,
    q: LocalOptions,
    e: &LocalEnds,
    mode: TransferMode,
    sudo: bool,
    overwrite_needed: bool,
    cleanup_only: bool,
) -> (r: Option<String>)
    requires
        is_placement(*p, q, *e),
    ensures
        paths::opt_text(r) == rename_target_of(q, *e, mode, sudo, overwrite_needed, cleanup_only),
{
    let copy = match mode {
        TransferMode::Copy => true,
        TransferMode::Move => false,
    };
    let dir = is_dir(e);
    let fresh_dir = dir && match e.destination_kind {
        DstObjKind::DirNew => true,
        _ => false,
    };
    if copy || sudo || q.backup || overwrite_needed || cleanup_only || p.source_contents || (
    p.contents_mode && !fresh_dir) || p.merges_child || p.replaces_directory || p.replaces_file {
        return None;
    }
    if is_into(e.destination_kind) {
        match paths::file_name(e.source.as_str()) {
            Some(n) => Some(paths::join_path(e.destination.as_str(), n.as_str())),
            None => None,
        }
    } else if !dir || fresh_dir {
        Some(copied(&e.destination))
    } else {
        None
    }
}

/// The name that a backup gets at the `n`-th try.
pub open spec fn backup_name_of(name: Seq<char>, n: nat) -> Seq<char> {
    if n == 0 {
        name + ".bak"@
    } else {
        name + ".bak."@ + text::decimal(n)
    }
}

/// Where something is backed up at the `n`-th try: beside it. Nowhere, where a path
/// does not end in a name.
pub fn backup_path(path: &str, n: u32) -> (r: Option<String>)
    ensures
        paths::opt_text(r) == (match (paths::last_name(path@), paths::parent_of(path@)) {
            (Some(name), Some(directory)) => Some(
                paths::joined_path(directory, backup_name_of(name, n as nat)),
            ),
            _ => None,
        }),
{
    match (paths::file_name(path), paths::parent(path)) {
        (Some(name), Some(directory)) => {
            let mut out = text::copy(name.as_str());
            if n == 0 {
                out.push_str(".bak");
            } else {
                out.push_str(".bak.");
                out.push_str(text::from_chars(text::number(n as u64).as_slice()).as_str());
            }
            assert(out@ == backup_name_of(name@, n as nat));
            Some(paths::join_path(directory.as_str(), out.as_str()))
        },
        _ => None,
    }
}

/// A request without overwriting replaces nothing, and one without force merges nothing.
pub proof fn law_nothing_goes_unless_asked_for(
    q: LocalOptions,
    e: LocalEnds,
    slot_dir: Option<Seq<char>>,
)
    ensures
        !q.overwrite ==> !replaces_parent(q, e) && !replaces_directory(q, e) && !replaces_file(q, e)
            && overwritten(q, e, slot_dir) is None,
        !q.force ==> !merges_child(q, e) && !forces_merge(q, e),
        e.source_kind == SrcObjKind::File ==> !replaces_directory(q, e) && !replaces_file(q, e)
            && !merges_child(q, e) && !forces_merge(q, e) && !already_there(q, e) && !overlaps(q, e)
            && overwritten(q, e, slot_dir) is None,
{
}

/// A directory that is the destination or lies in it is refused, unless it is in place
/// already or the request asks for force or overwriting.
pub proof fn law_overlaps_are_refused(q: LocalOptions, e: LocalEnds)
    requires
        e.source_kind == SrcObjKind::Dir,
        !q.force,
        !q.overwrite,
        !paths::same_path(e.slot_real@, e.source@),
        !paths::same_path(e.slot_real@, e.source_parent_real@),
    ensures
        overlaps(q, e) <==> paths::same_path(e.source_real@, e.destination_real@) || (
        !paths::same_path(e.destination_real@, "/"@) && paths::under(
            e.source_real@,
            e.destination_real@,
        )),
{
}

/// A directory that is copied into an existing one keeps its name there: that name is where
/// it may be in the way of something, and nothing else is touched.
pub proof fn law_directories_go_into_directories(p: Placement, q: LocalOptions, e: LocalEnds)
    requires
        is_placement(p, q, e),
        e.source_kind == SrcObjKind::Dir,
        e.destination_kind == DstObjKind::DirExisting || e.destination_kind == DstObjKind::Dir,
        !q.force && !q.overwrite && !q.glob_contents,
        !paths::under(e.destination_real@, e.source@),
        !paths::same_path(e.slot_real@, e.source@),
        !paths::same_path(e.slot_real@, e.source_parent_real@),
    ensures
        p.include_source_root,
        !p.already_there && !p.source_contents && !p.renames_directory,
        p.exclude_rel is None,
        p.contents_mode == q.contents_requested,
        paths::opt_text(p.target_dir) == Some(e.destination@),
        paths::last_name(e.source@) matches Some(n) ==> paths::opt_text(p.conflict_path) == Some(
            paths::joined_path(e.destination@, n),
        ),
        p.source_argument@ == e.source@,
        e.destination@.len() > 0 ==> p.destination_argument@ == e.destination@.push('/'),
{
}

/// A directory that is copied to a new name gets that name: its entries go to the new
/// directory, and the destination itself is where something may be in the way.
pub proof fn law_new_directories_get_the_name(p: Placement, q: LocalOptions, e: LocalEnds)
    requires
        is_placement(p, q, e),
        e.source_kind == SrcObjKind::Dir,
        e.destination_kind == DstObjKind::DirNew,
        !q.glob_contents,
        !paths::under(e.destination_real@, e.source@),
    ensures
        !p.include_source_root,
        p.renames_directory <==> !q.force,
        !p.already_there && !p.replaces_directory && !p.replaces_file,
        paths::opt_text(p.target_dir) == paths::parent_of(e.destination@),
        e.source@.len() > 0 ==> p.source_argument@ == e.source@.push('/'),
        p.destination_argument@ == e.destination@,
{
}

/// A file goes into an existing directory under its own name, and onto any other
/// destination itself.
pub proof fn law_files_are_placed(p: Placement, q: LocalOptions, e: LocalEnds)
    requires
        is_placement(p, q, e),
        e.source_kind == SrcObjKind::File,
    ensures
        !p.include_source_root && !p.contents_mode && !p.source_contents,
        !p.already_there && !p.merges_child && !p.forces_merge,
        p.source_argument@ == e.source@ && p.source_path@ == e.source@,
        e.destination_kind == DstObjKind::Dir || e.destination_kind == DstObjKind::DirExisting ==> (
        paths::last_name(e.source@) matches Some(n) ==> paths::opt_text(p.conflict_path) == Some(
            paths::joined_path(e.destination@, n),
        )),
        e.destination_kind == DstObjKind::File ==> paths::opt_text(p.target_dir)
            == paths::parent_of(e.destination@),
        e.destination_kind == DstObjKind::File ==> ((paths::parent_of(e.destination@) matches Some(d)
            && paths::last_name(e.destination@) is Some) ==> paths::opt_text(p.conflict_path)
            == Some(
            paths::joined_path(
                paths::parent_of(e.destination@)->0,
                paths::last_name(e.destination@)->0,
            ),
        )),
{
}

/// A destination that lies inside the source directory takes only the source's contents,
/// and is itself left out of them.
pub proof fn law_a_destination_inside_is_left_out(p: Placement, q: LocalOptions, e: LocalEnds)
    requires
        is_placement(p, q, e),
        e.source_kind == SrcObjKind::Dir,
    ensures
        p.exclude_rel is Some ==> p.contents_mode && p.source_contents && !q.overwrite
            && paths::under(e.destination_real@, e.source@) && !paths::same_path(
            e.destination_real@,
            e.source@,
        ) && p.exclude_rel->0@ == text::joined(
            paths::below(e.destination_real@, e.source@),
            "/"@,
        ),
        q.overwrite || !paths::under(e.destination_real@, e.source@) ==> p.exclude_rel is None,
        (!q.overwrite && paths::under(e.destination_real@, e.source@) && !paths::same_path(
            e.destination_real@,
            e.source@,
        ) && (e.destination_kind == DstObjKind::DirNew || e.destination_kind
            == DstObjKind::DirExisting) && text::joined(
            paths::below(e.destination_real@, e.source@),
            "/"@,
        ).len() > 0) ==> p.exclude_rel is Some,
{
}

/// An existing directory that is named without a slash is replaced by force and
/// overwriting together; one that is named with a slash never is.
pub proof fn law_a_slash_protects_a_directory(q: LocalOptions, e: LocalEnds)
    requires
        e.source_kind == SrcObjKind::Dir,
        e.destination_kind == DstObjKind::DirExisting,
    ensures
        e.destination_display@.len() > 0 && e.destination_display@.last() == '/'
            ==> !replaces_directory(q, e),
        paths::last_name(e.source@) == paths::last_name(e.destination@) ==> !replaces_directory(
            q,
            e,
        ),
        (q.overwrite && q.force && !source_contents(q, e) && !is_dir_ref(e.destination_display@)
            && paths::last_name(e.source@) != paths::last_name(e.destination@))
            ==> replaces_directory(q, e),
        replaces_directory(q, e) ==> q.overwrite && !q.force ==> replaces_parent(q, e),
{
}

/// What is removed to make room is the destination itself, or what has the source's name in
/// it; for an existing file in the place of a directory, that file.
pub proof fn law_what_makes_room(q: LocalOptions, e: LocalEnds, slot_dir: Option<Seq<char>>)
    ensures
        overwritten(q, e, slot_dir) matches Some(x) ==> q.overwrite && e.source_kind
            == SrcObjKind::Dir && !source_contents(q, e) && (x.path == e.destination_real@ || Some(
            x.path,
        ) == slot_dir),
        (q.overwrite && e.source_kind == SrcObjKind::Dir && e.destination_kind
            == DstObjKind::FileExistingForDir && !source_contents(q, e)) ==> overwritten(
            q,
            e,
            slot_dir,
        ) == Some(ExistingModel { path: e.destination_real@, kind: ObjectKind::File }),
        (q.overwrite && !q.force && e.source_kind == SrcObjKind::Dir && e.destination_kind
            == DstObjKind::DirExisting && !source_contents(q, e) && !paths::same_path(
            e.slot_real@,
            e.source@,
        ) && !paths::same_path(e.slot_real@, e.source_parent_real@) && paths::last_name(e.source@)
            is Some && slot_dir is Some) ==> overwritten(q, e, slot_dir) == Some(
            ExistingModel { path: slot_dir->0, kind: ObjectKind::Dir },
        ),
{
}

/// Something in the way is merged with or overwritten, never both: a file is overwritten, a
/// directory is merged with unless overwriting was asked for. What is in place already is
/// neither.
pub proof fn law_merged_or_overwritten(
    q: LocalOptions,
    e: LocalEnds,
    overwrites: bool,
    conflict: bool,
)
    ensures
        ({
            let m = modes(q, e, overwrites, conflict);
            &&& !(m.merge && m.overwrite)
            &&& already_there(q, e) ==> !m.merge && !m.overwrite
            &&& e.source_kind == SrcObjKind::File ==> !m.merge && (m.overwrite <==> conflict)
            &&& e.source_kind == SrcObjKind::Dir && !already_there(q, e) && conflict ==> (
            m.overwrite <==> overwrites || q.overwrite) && (m.merge <==> !m.overwrite)
            &&& e.source_kind == SrcObjKind::Dir && !already_there(q, e) && overwrites
                ==> m.overwrite
            &&& !conflict && !overwrites && !q.force ==> !m.merge && !m.overwrite
        }),
{
}

/// A backup is made only where it was asked for, and then of all that is replaced or
/// changed: what makes room, the root of a synchronisation, or what is in the way.
pub proof fn law_what_is_replaced_is_backed_up(
    q: LocalOptions,
    e: LocalEnds,
    target: Option<ExistingModel>,
    flags: ModeFlags,
    at_sync_root: Option<ExistingModel>,
    at_conflict: Option<ExistingModel>,
)
    ensures
        ({
            let r = backed_up(q, e, target, flags, at_sync_root, at_conflict);
            &&& !q.backup ==> r is None
            &&& q.backup && !already_there(q, e) && !q.sync && target is Some ==> r == target
            &&& (q.backup && !already_there(q, e) && q.sync && at_sync_root is Some
                && !paths::same_path(at_sync_root->0.path, e.source@)) ==> r == at_sync_root
            &&& (q.backup && !already_there(q, e) && !q.sync && target is None && (flags.merge
                || flags.overwrite) && at_conflict is Some && !paths::same_path(
                at_conflict->0.path,
                e.source@,
            )) ==> r == at_conflict
            &&& !q.sync && target is None && !flags.merge && !flags.overwrite ==> r is None
        }),
{
}

/// A synchronisation into an existing directory changes the source's name in it; one of the
/// source's contents, or to a new name, the destination itself.
pub proof fn law_a_sync_changes_its_own_name(q: LocalOptions, e: LocalEnds)
    ensures
        e.destination_kind == DstObjKind::DirNew ==> sync_root_of(q, e) == e.destination@,
        source_contents(q, e) ==> sync_root_of(q, e) == e.destination@,
        (e.destination_kind == DstObjKind::DirExisting && !source_contents(q, e)) ==> (
        paths::last_name(e.source@) matches Some(n) ==> sync_root_of(q, e) == paths::joined_path(
            e.destination@,
            n,
        )),
{
}

/// A plain rename does a whole move only: never a copy, and never where something is to be
/// backed up, overwritten, merged or replaced. It puts the source under its own name into
/// an existing directory, and else at the destination.
pub proof fn law_renames_do_whole_moves(
    q: LocalOptions,
    e: LocalEnds,
    mode: TransferMode,
    sudo: bool,
    overwrite_needed: bool,
    cleanup_only: bool,
)
    ensures
        ({
            let r = rename_target_of(q, e, mode, sudo, overwrite_needed, cleanup_only);
            &&& mode == TransferMode::Copy || sudo || q.backup || overwrite_needed || cleanup_only
                ==> r is None
            &&& merges_child(q, e) || replaces_directory(q, e) || replaces_file(q, e)
                || source_contents(q, e) ==> r is None
            &&& r is Some && (e.destination_kind == DstObjKind::Dir || e.destination_kind
                == DstObjKind::DirExisting) ==> paths::last_name(e.source@) is Some && r->0
                == paths::joined_path(e.destination@, paths::last_name(e.source@)->0)
            &&& r is Some && (e.destination_kind == DstObjKind::File || e.destination_kind
                == DstObjKind::DirNew) ==> r->0 == e.destination@
            &&& (mode == TransferMode::Move && !sudo && !q.backup && !overwrite_needed
                && !cleanup_only && e.source_kind == SrcObjKind::File && e.destination_kind
                == DstObjKind::File) ==> r == Some(e.destination@)
            &&& e.source_kind == SrcObjKind::Dir && e.destination_kind
                == DstObjKind::FileExistingForDir ==> r is None
        }),
{
}

/// A file that goes to another name in its own directory is renamed, one that goes to
/// another directory gets its name there, and one that goes to its own place keeps it.
pub proof fn law_files_are_renamed_by_name(q: LocalOptions, e: LocalEnds)
    requires
        e.source_kind == SrcObjKind::File,
        e.destination_kind == DstObjKind::File,
        paths::last_name(e.source@) is Some,
        paths::last_name(e.source@)->0.len() > 0,
        paths::last_name(e.destination@) is Some,
        paths::last_name(e.destination@)->0.len() > 0,
        paths::parent_of(e.source@) is Some,
        paths::parent_of(e.destination@) is Some,
    ensures
        ({
            let from = paths::last_name(e.source@)->0;
            let to = paths::last_name(e.destination@)->0;
            let beside = paths::same_path(
                paths::parent_of(e.source@)->0,
                paths::parent_of(e.destination@)->0,
            );
            let r = renaming_of(q, e);
            &&& beside && from != to ==> r == (RenamingModel::Simple {
                from,
                to,
                parent: paths::parent_of(e.source@)->0,
            })
            &&& !beside ==> r == (RenamingModel::Target { name: to, is_dir: false })
            &&& beside && from == to ==> r is Same
        }),
{
}

/// Only what gets a new name is renamed: a file that goes into a directory is not, and a
/// directory only where it takes the place or the name of its destination.
pub proof fn law_other_sources_keep_their_name(q: LocalOptions, e: LocalEnds)
    ensures
        e.source_kind == SrcObjKind::File && e.destination_kind != DstObjKind::File ==> renaming_of(
            q,
            e,
        ) is Same,
        e.source_kind == SrcObjKind::Dir && !replaces_directory(q, e) && !replaces_file(q, e)
            && e.destination_kind != DstObjKind::DirNew ==> renaming_of(q, e) is Same,
        source_contents(q, e) ==> renaming_of(q, e) is Same,
{
}

/// Backups of one thing that are made at different tries have different names, all of them
/// with the name of what is backed up in front.
pub proof fn law_backups_have_names_of_their_own(name: Seq<char>, m: nat, n: nat)
    ensures
        text::begins(backup_name_of(name, n), name + ".bak"@),
        backup_name_of(name, n) != name,
        m != n ==> backup_name_of(name, m) != backup_name_of(name, n),
{
    reveal_strlit(".bak");
    reveal_strlit(".bak.");
    let head = name + ".bak"@;
    let dotted = name + ".bak."@;
    assert(dotted.take(head.len() as int) == head);
    text::lemma_decimal_value(m);
    text::lemma_decimal_value(n);
    let a = backup_name_of(name, m);
    let b = backup_name_of(name, n);
    if n > 0 {
        assert(b.take(head.len() as int) == head);
        assert(b.skip(dotted.len() as int) == text::decimal(n));
    } else {
        assert(b.take(head.len() as int) == head);
    }
    if m > 0 {
        assert(a.skip(dotted.len() as int) == text::decimal(m));
    }
    assert(b.len() > name.len());
    if a == b && m != n && m > 0 && n > 0 {
        assert(text::decimal(m) == text::decimal(n));
    }
}

/// A path that is written with a slash ends in exactly one, and one that is written without
/// in none; nothing but slashes at the end is lost.
pub proof fn law_one_slash_or_none(path: Seq<char>)
    ensures
        slashed(path, true).last() == '/',
        slashed(path, true) == slashed(path, false).push('/'),
        slashed(path, false).len() > 0 ==> slashed(path, false).last() != '/',
        text::begins(path, slashed(path, false)),
        forall|i: int|
            slashed(path, false).len() <= i < path.len() ==> #[trigger] path[i] == '/',
        path.len() > 0 ==> argument_text(path, true) == path.push('/'),
        argument_text(path, false) == path,
    decreases path.len(),
{
    if path.len() > 0 && path.last() == '/' {
        law_one_slash_or_none(path.drop_last());
        let t = slashed(path, false);
        assert(t == slashed(path.drop_last(), false));
        assert(path.take(t.len() as int) == path.drop_last().take(t.len() as int));
        assert forall|i: int| t.len() <= i < path.len() implies #[trigger] path[i] == '/' by {
            if i < path.len() - 1 {
                assert(path.drop_last()[i] == path[i]);
            }
        }
    } else {
        assert(path.take(path.len() as int) == path);
    }
}

/// A path is typed as a directory exactly when it ends in a slash, or its last piece is
/// `.`, `..` or empty.
pub proof fn law_slashes_mean_directories(display: Seq<char>)
    ensures
        display.len() > 0 && display.last() == '/' ==> is_dir_ref(display),
        display.len() == 0 ==> is_dir_ref(display),
        display.len() > 0 && display.last() != '/' && display.last() != '.' ==> !is_dir_ref(display),
{
    reveal_strlit(".");
    reveal_strlit("..");
    if display.len() > 0 && display.last() != '/' {
        let before = text::split_on(display.drop_last(), '/');
        let tail = text::split_on(display, '/').last();
        assert(tail == before.last().push(display.last()));
        assert(tail.last() == display.last());
    }
}

/// A preview shows the destination where things go into it under their own names, and the
/// directory above it where they take its place.
pub proof fn law_previews_show_where_things_go(q: LocalOptions, e: LocalEnds)
    requires
        renaming_of(q, e) is Same,
        e.destination@.len() > 0,
    ensures
        e.destination_kind == DstObjKind::Dir || e.destination_kind == DstObjKind::DirExisting
            || e.destination_kind == DstObjKind::DirNew ==> preview_root_of(q, e)
            == e.destination@ + seq!['/'],
        e.destination_kind == DstObjKind::File && (paths::parent_of(e.destination@) matches Some(
            p,
        ) && p.len() > 0) ==> preview_root_of(q, e) == paths::parent_of(e.destination@)->0
            + seq!['/'],
{
    assert(e.destination@.push('/') == e.destination@ + seq!['/']);
    match paths::parent_of(e.destination@) {
        Some(p) => {
            assert(p.push('/') == p + seq!['/']);
        },
        None => {},
    }
}

/// A directory that is named by its contents, or merged on request, goes entry by entry and
/// not under its own name.
pub proof fn law_contents_go_entry_by_entry(p: Placement, q: LocalOptions, e: LocalEnds)
    requires
        is_placement(p, q, e),
        e.source_kind == SrcObjKind::Dir,
    ensures
        q.glob_contents && !q.force ==> !p.include_source_root,
        p.source_contents || p.forces_merge || p.replaces_directory || p.replaces_file
            || p.merges_child ==> !p.include_source_root,
        e.destination_kind == DstObjKind::DirNew ==> !p.include_source_root,
        !p.include_source_root && e.source@.len() > 0 ==> p.source_argument@ == e.source@ + seq!['/'],
        p.include_source_root ==> p.source_argument@ == e.source@,
        p.include_source_root ==> !p.source_contents && !p.forces_merge && !p.replaces_directory
            && !p.replaces_file && !p.merges_child,
{
    assert(e.source@.push('/') == e.source@ + seq!['/']);
}

} // verus!
