//! What a command line asks for.

use crate::domain;
use crate::domain::{MergeCollisionPolicy, RemoteSpec, TransferMode};
use crate::remote;
use crate::text;
use vstd::prelude::*;

verus! {

/// A command line, taken apart.
#[derive(Debug)]
pub struct CliArgs {
    pub source: String,
    pub extra: Vec<String>,
    pub destination: String,
    pub move_mode: bool,
    pub sync_mode: bool,
    pub sudo: bool,
    pub backup: bool,
    pub overwrite: bool,
    pub contents_only: bool,
    pub preview_only: bool,
    pub preview_lite: bool,
    pub create_destination_parents: bool,
    pub replace_dest_symlink: bool,
    pub merge_collision_policy: MergeCollisionPolicy,
    pub showall: bool,
    pub verify: bool,
    pub tree_depth: Option<usize>,
    pub tree_trunc: usize,
}

/// Why a command line is refused.
#[derive(Clone, Copy, Debug, PartialEq, Eq, Structural)]
pub enum RunError {
    RemoteParents,
    CollisionFlagsNeedLocalBackend,
    SyncWithOverwrite,
    SyncWithMove,
    SyncWithCollisionFlags,
    ManyRemoteSources,
    ManyWithContentsOnly,
    ManyWithSync,
}

/// The message for a refusal.
pub open spec fn error_text(e: RunError) -> Seq<char> {
    match e {
        RunError::RemoteParents =>
            "--create-destination-parents is currently supported for local transfers only."@,
        RunError::CollisionFlagsNeedLocalBackend =>
            "Collision and symlink replacement flags are only supported with the local Rust backend."@,
        RunError::SyncWithOverwrite => "--sync cannot be combined with --overwrite. Use one mode."@,
        RunError::SyncWithMove => "--sync currently supports copy mode only (no --move)."@,
        RunError::SyncWithCollisionFlags =>
            "--sync cannot be combined with collision/symlink replacement flags."@,
        RunError::ManyRemoteSources =>
            "Multiple source paths are only supported for local filesystem transfers."@,
        RunError::ManyWithContentsOnly => "Multiple source paths do not support --contents-only."@,
        RunError::ManyWithSync => "Multiple source paths do not support --sync."@,
    }
}

impl RunError {
    pub fn message(self) -> (r: &'static str)
        ensures
            r@ == error_text(self),
    {
        match self {
            RunError::RemoteParents => {
                "--create-destination-parents is currently supported for local transfers only."
            },
            RunError::CollisionFlagsNeedLocalBackend => {
                "Collision and symlink replacement flags are only supported with the local Rust backend."
            },
            RunError::SyncWithOverwrite => {
                "--sync cannot be combined with --overwrite. Use one mode."
            },
            RunError::SyncWithMove => "--sync currently supports copy mode only (no --move).",
            RunError::SyncWithCollisionFlags => {
                "--sync cannot be combined with collision/symlink replacement flags."
            },
            RunError::ManyRemoteSources => {
                "Multiple source paths are only supported for local filesystem transfers."
            },
            RunError::ManyWithContentsOnly => {
                "Multiple source paths do not support --contents-only."
            },
            RunError::ManyWithSync => "Multiple source paths do not support --sync.",
        }
    }
}

/// Whether a source names the contents of a directory.
pub open spec fn names_contents(source: Seq<char>) -> bool {
    text::ends(source, "/*"@)
}

/// The source without a trailing star.
pub open spec fn bare_source(source: Seq<char>) -> Seq<char> {
    if names_contents(source) {
        source.drop_last()
    } else {
        source
    }
}

/// Whether either end is remote.
pub open spec fn is_remote(a: CliArgs) -> bool {
    remote::remote_of(bare_source(a.source@)) is Some || remote::remote_of(a.destination@) is Some
}

/// Whether collisions are to be handled in another way than usual.
pub open spec fn has_collision_flags(a: CliArgs) -> bool {
    a.replace_dest_symlink || a.merge_collision_policy != domain::default_policy()
}

/// Why a command line is refused, if it is. The first reason counts.
pub open spec fn refusal(a: CliArgs) -> Option<RunError> {
    if a.create_destination_parents && is_remote(a) {
        Some(RunError::RemoteParents)
    } else if has_collision_flags(a) && (a.sudo || is_remote(a)) {
        Some(RunError::CollisionFlagsNeedLocalBackend)
    } else if a.sync_mode && a.overwrite {
        Some(RunError::SyncWithOverwrite)
    } else if a.sync_mode && a.move_mode {
        Some(RunError::SyncWithMove)
    } else if a.sync_mode && has_collision_flags(a) {
        Some(RunError::SyncWithCollisionFlags)
    } else if a.extra@.len() == 0 {
        None
    } else if is_remote(a) {
        Some(RunError::ManyRemoteSources)
    } else if a.contents_only {
        Some(RunError::ManyWithContentsOnly)
    } else if a.sync_mode {
        Some(RunError::ManyWithSync)
    } else {
        None
    }
}

/// Who carries out a command line.
#[derive(Debug)]
pub enum Route {
    /// Many files into one directory; its parents are made first on request.
    Batch { sources: Vec<String>, create_parents: bool },
    /// At least one end is remote.
    Remote { source: Option<RemoteSpec>, destination: Option<RemoteSpec> },
    Local,
}

/// A command line that is accepted.
#[derive(Debug)]
pub struct Request {
    pub mode: TransferMode,
    /// The source without a trailing star.
    pub source: String,
    pub preview_only: bool,
    pub contents_mode_requested: bool,
    pub force: bool,
    pub source_glob_contents: bool,
    pub route: Route,
}

/// What an accepted command line comes to.
pub open spec fn is_request(r: Request, a: CliArgs) -> bool {
    let contents = names_contents(a.source@);
    let from = remote::remote_of(bare_source(a.source@));
    let to = remote::remote_of(a.destination@);
    &&& r.mode == (if a.move_mode {
        TransferMode::Move
    } else {
        TransferMode::Copy
    })
    &&& r.source@ == bare_source(a.source@)
    &&& r.preview_only == (a.preview_only || a.preview_lite)
    &&& r.source_glob_contents == contents
    &&& r.force == (a.contents_only || contents)
    &&& r.contents_mode_requested == (a.contents_only || contents)
    &&& match r.route {
        Route::Batch { sources, create_parents } => a.extra@.len() > 0 && text::texts(sources@)
            == seq![a.source@] + text::texts(a.extra@) && create_parents
            == a.create_destination_parents,
        Route::Remote { source, destination } => a.extra@.len() == 0 && is_remote(a)
            && remote::remote_model(source) == from && remote::remote_model(destination) == to,
        Route::Local => a.extra@.len() == 0 && !is_remote(a),
    }
}

fn batch_sources(a: &CliArgs) -> (r: Vec<String>)
    ensures
        text::texts(r@) == seq![a.source@] + text::texts(a.extra@),
{
    let mut out: Vec<String> = Vec::new();
    out.push(a.source.clone());
    let ghost extra = text::texts(a.extra@);
    let mut i: usize = 0;
    assert(text::texts(out@) == seq![a.source@] + extra.take(0));
    while i < a.extra.len()
        invariant
            i <= a.extra@.len(),
            extra == text::texts(a.extra@),
            text::texts(out@) == seq![a.source@] + extra.take(i as int),
        decreases a.extra@.len() - i,
    {
        let ghost before = out@;
        out.push(a.extra[i].clone());
        assert(text::texts(out@) == text::texts(before).push(a.extra@[i as int]@));
        assert(extra.take(i + 1) == extra.take(i as int).push(extra[i as int]));
        i = i + 1;
    }
    assert(extra.take(extra.len() as int) == extra);
    out
}

/// Decides what a command line asks for, or refuses it.
pub fn run(args: &CliArgs) -> (r: Result<Request, RunError>)
    ensures
        match r {
            Ok(request) => refusal(*args) is None && is_request(request, *args),
            Err(e) => refusal(*args) == Some(e),
        },
{
    let mut chars = text::to_chars(args.source.as_str());
    let glob = text::ends_with(chars.as_slice(), text::to_chars("/*").as_slice());
    if glob {
        proof {
            reveal_strlit("/*");
        }
        chars.pop();
    }
    let source = text::from_chars(chars.as_slice());
    assert(source@ == bare_source(args.source@));
    let from = remote::parse_remote_spec(source.as_str());
    let to = remote::parse_remote_spec(args.destination.as_str());
    let far = from.is_some() || to.is_some();
    let default = MergeCollisionPolicy::default();
    let collision_flags = args.replace_dest_symlink || args.merge_collision_policy != default;
    if args.create_destination_parents && far {
        return Err(RunError::RemoteParents);
    }
    if collision_flags && (args.sudo || far) {
        return Err(RunError::CollisionFlagsNeedLocalBackend);
    }
    if args.sync_mode && args.overwrite {
        return Err(RunError::SyncWithOverwrite);
    }
    if args.sync_mode && args.move_mode {
        return Err(RunError::SyncWithMove);
    }
    if args.sync_mode && collision_flags {
        return Err(RunError::SyncWithCollisionFlags);
    }
    let many = args.extra.len() > 0;
    if many {
        if far {
            return Err(RunError::ManyRemoteSources);
        }
        if args.contents_only {
            return Err(RunError::ManyWithContentsOnly);
        }
        if args.sync_mode {
            return Err(RunError::ManyWithSync);
        }
    }
    let route = if many {
        Route::Batch {
            sources: batch_sources(args),
            create_parents: args.create_destination_parents,
        }
    } else if far {
        Route::Remote { source: from, destination: to }
    } else {
        Route::Local
    };
    Ok(
        Request {
            mode: if args.move_mode {
                TransferMode::Move
            } else {
                TransferMode::Copy
            },
            source,
            preview_only: args.preview_only || args.preview_lite,
            contents_mode_requested: args.contents_only || glob,
            force: args.contents_only || glob,
            source_glob_contents: glob,
            route,
        },
    )
}

/// Nothing that synchronises ever moves, overwrites or handles collisions.
pub proof fn law_sync_stands_alone(a: CliArgs)
    requires
        a.sync_mode,
        refusal(a) is None,
    ensures
        !a.move_mode,
        !a.overwrite,
        !has_collision_flags(a),
        a.extra@.len() == 0,
{
}

/// Local command lines with one source are refused only for what a synchronisation cannot
/// do, or for collision rules with elevated rights; several sources also for asking for
/// contents or a synchronisation.
pub proof fn law_local_requests_are_accepted(a: CliArgs)
    requires
        remote::remote_of(bare_source(a.source@)) is None,
        remote::remote_of(a.destination@) is None,
    ensures
        ({
            let rules = a.replace_dest_symlink || a.merge_collision_policy
                != domain::default_policy();
            refusal(a) is None <==> !(rules && a.sudo) && !(a.sync_mode && (a.overwrite || a.move_mode
                || rules)) && (a.extra@.len() > 0 ==> !a.contents_only && !a.sync_mode)
        }),
{
}

/// A remote end takes one source only, no collision rules, and makes no directories.
pub proof fn law_remote_requests_are_limited(a: CliArgs)
    requires
        remote::remote_of(bare_source(a.source@)) is Some || remote::remote_of(a.destination@)
            is Some,
    ensures
        refusal(a) is None <==> !a.create_destination_parents && !a.replace_dest_symlink
            && a.merge_collision_policy == domain::default_policy() && !(a.sync_mode && (a.overwrite
            || a.move_mode)) && a.extra@.len() == 0,
{
}

/// A source that ends in a slash and a star means the contents of a directory: it is taken
/// without the star. Any other is taken as it is.
pub proof fn law_a_star_means_the_contents(r: Request, a: CliArgs)
    requires
        is_request(r, a),
        a.source@.len() >= 2,
    ensures
        r.source_glob_contents <==> a.source@.last() == '*' && a.source@[a.source@.len() - 2] == '/',
        r.source_glob_contents ==> r.source@ == a.source@.drop_last(),
        !r.source_glob_contents ==> r.source@ == a.source@,
        r.force <==> a.contents_only || r.source_glob_contents,
        r.contents_mode_requested <==> a.contents_only || r.source_glob_contents,
        r.mode == TransferMode::Move <==> a.move_mode,
        r.preview_only <==> a.preview_only || a.preview_lite,
        r.route is Batch <==> a.extra@.len() > 0,
{
    reveal_strlit("/*");
    let s = a.source@;
    let tail = s.skip(s.len() - 2);
    assert(tail.len() == 2 && tail[0] == s[s.len() - 2] && tail[1] == s.last());
    assert(tail == "/*"@ <==> (tail[0] == '/' && tail[1] == '*')) by {
        if tail[0] == '/' && tail[1] == '*' {
            assert(tail =~= "/*"@);
        }
    }
}

/// Several sources go as a batch with the first among them; one source goes to another host
/// if either end names one, and stays here if neither does.
pub proof fn law_requests_go_where_their_ends_are(r: Request, a: CliArgs)
    requires
        is_request(r, a),
    ensures
        a.extra@.len() > 0 <==> r.route is Batch,
        a.extra@.len() == 0 ==> (r.route is Remote <==> remote::remote_of(bare_source(a.source@))
            is Some || remote::remote_of(a.destination@) is Some),
        a.extra@.len() == 0 ==> (r.route is Local <==> remote::remote_of(bare_source(a.source@))
            is None && remote::remote_of(a.destination@) is None),
        r.route matches Route::Batch { sources, create_parents } ==> sources@.len() == 1
            + a.extra@.len() && sources@[0]@ == a.source@ && create_parents
            == a.create_destination_parents,
{
    match r.route {
        Route::Batch { sources, create_parents } => {
            assert(text::texts(sources@).len() == sources@.len());
            assert(text::texts(sources@)[0] == sources@[0]@);
        },
        _ => {},
    }
}

} // verus!
