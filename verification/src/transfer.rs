//! What a transfer does with each entry: when it copies, how, and what it
//! counts as done.

use crate::domain::MergeCollisionPolicy;
use crate::paths;
use crate::policy;
use crate::prescan::{ManifestFileEntry, TransferManifest};
use crate::text;
use crate::workload;
use vstd::prelude::*;

verus! {

/// Where an entry comes from.
#[derive(Clone, Copy, Debug, PartialEq, Eq, Structural)]
pub enum EntryOrigin {
    /// It is the whole source.
    Single,
    /// A manifest lists it.
    Listed,
    /// A walk of the source came upon it.
    Walked,
}

/// How entries are transferred.
#[derive(Clone, Copy, Debug)]
pub struct EntryOptions {
    pub origin: EntryOrigin,
    pub sync: bool,
    pub verify: bool,
    pub replace_links: bool,
    pub policy: MergeCollisionPolicy,
    /// Files that the policy would leave alone are compared byte by byte.
    pub compares_contents: bool,
}

/// What a source entry is.
#[derive(Clone, Copy, Debug, PartialEq, Eq, Structural)]
pub enum EntryKind {
    Link,
    Regular,
    Other,
}

/// An entry and what stands in its place.
#[derive(Clone, Copy, Debug)]
pub struct EntryFacts {
    pub kind: EntryKind,
    pub size: u64,
    pub mtime: Option<i128>,
    /// Another name of the same inode has been copied.
    pub has_anchor: bool,
    /// More names of the same inode may follow.
    pub is_hardlinked: bool,
    /// Both are symbolic links with the same target.
    pub links_equal: bool,
    pub dst_exists: bool,
    pub dst_is_dir: bool,
    pub dst_is_link: bool,
    pub dst_is_regular: bool,
    /// Unknown for a link that is to be replaced.
    pub dst_size: Option<u64>,
    pub dst_mtime: Option<i128>,
}

/// Whether the policy has the entry copied.
pub open spec fn is_wanted(o: EntryOptions, f: EntryFacts) -> bool {
    if o.sync && o.origin == EntryOrigin::Listed {
        policy::sync_change(f.size, f.mtime, f.dst_is_regular, f.dst_size, f.dst_mtime) is Some
    } else {
        policy::collision_change(
            o.policy,
            f.size,
            f.mtime,
            f.dst_exists,
            f.dst_size,
            f.dst_mtime,
        ) is Some
    }
}

/// Whether the contents decide on an entry that the policy leaves alone.
pub open spec fn is_compared(o: EntryOptions, f: EntryFacts) -> bool {
    o.compares_contents && !f.dst_is_link && match o.origin {
        EntryOrigin::Single => f.dst_exists,
        EntryOrigin::Listed => !o.sync && f.dst_is_regular,
        EntryOrigin::Walked => false,
    }
}

/// Whether the copy is written beside its place and then renamed. A link that
/// is not to be replaced is written through.
pub open spec fn is_atomic(o: EntryOptions, f: EntryFacts) -> bool {
    o.sync && o.origin == EntryOrigin::Listed || o.replace_links || !f.dst_is_link
}

/// Why an entry failed.
#[derive(Clone, Copy, Debug, PartialEq, Eq, Structural)]
pub enum EntryFailure {
    IsADirectory,
    CreateHardlink,
    VerifyHardlink,
    CopySymlink,
    CompareContents,
    CopyFile,
    VerifyFile,
}

/// What a finished entry leaves behind.
#[derive(Clone, Copy, Debug, PartialEq, Eq, Structural)]
pub struct EntryDone {
    /// The bytes to count as done, if the entry counts at all.
    pub counted: Option<u64>,
    /// Its destination stands for its inode from now on.
    pub is_anchor: bool,
}

/// One step with an entry.
#[derive(Clone, Copy, Debug, PartialEq, Eq, Structural)]
pub enum EntryStep {
    /// Link the destination to the copy of another name.
    LinkToAnchor,
    CopyLink,
    /// Compare the contents; success means that they are equal.
    Compare,
    Copy { atomic: bool },
    /// Compare what arrived with the source.
    Verify { done: EntryDone, hardlink: bool },
    Done { done: EntryDone },
    Failed { failure: EntryFailure },
}

/// How a step went. A comparison that finds a difference has not failed.
#[derive(Clone, Copy, Debug, PartialEq, Eq, Structural)]
pub enum EntryResult {
    Succeeded,
    Differs,
    Error,
}

pub open spec fn finished(counted: Option<u64>, is_anchor: bool) -> EntryStep {
    EntryStep::Done { done: EntryDone { counted, is_anchor } }
}

/// What follows the arrival of a regular file.
pub open spec fn arrived(o: EntryOptions, done: EntryDone, hardlink: bool) -> EntryStep {
    if o.verify {
        EntryStep::Verify { done, hardlink }
    } else {
        EntryStep::Done { done }
    }
}

/// What follows the decision to leave a regular file alone.
pub open spec fn left_alone(o: EntryOptions, f: EntryFacts) -> EntryStep {
    arrived(o, EntryDone { counted: Some(f.size), is_anchor: false }, false)
}

/// The first step with an entry.
pub open spec fn first_entry_step_of(o: EntryOptions, f: EntryFacts) -> EntryStep {
    let listed = o.origin == EntryOrigin::Listed;
    if f.dst_is_dir && !o.sync && (listed || o.origin == EntryOrigin::Single && f.kind
        != EntryKind::Link) {
        EntryStep::Failed { failure: EntryFailure::IsADirectory }
    } else if listed && f.has_anchor {
        EntryStep::LinkToAnchor
    } else {
        match f.kind {
            EntryKind::Link => if listed || !f.links_equal {
                EntryStep::CopyLink
            } else {
                finished(Some(0), false)
            },
            EntryKind::Regular => if is_wanted(o, f) {
                EntryStep::Copy { atomic: is_atomic(o, f) }
            } else if is_compared(o, f) {
                EntryStep::Compare
            } else {
                left_alone(o, f)
            },
            EntryKind::Other => finished(None, false),
        }
    }
}

/// The step that follows.
pub open spec fn next_entry_step_of(
    o: EntryOptions,
    f: EntryFacts,
    step: EntryStep,
    result: EntryResult,
) -> EntryStep {
    let ok = result == EntryResult::Succeeded;
    match step {
        EntryStep::LinkToAnchor => if ok {
            arrived(o, EntryDone { counted: Some(0), is_anchor: false }, true)
        } else {
            EntryStep::Failed { failure: EntryFailure::CreateHardlink }
        },
        EntryStep::CopyLink => if ok {
            finished(Some(0), false)
        } else {
            EntryStep::Failed { failure: EntryFailure::CopySymlink }
        },
        EntryStep::Compare => match result {
            EntryResult::Succeeded => left_alone(o, f),
            EntryResult::Differs => EntryStep::Copy { atomic: is_atomic(o, f) },
            EntryResult::Error => EntryStep::Failed { failure: EntryFailure::CompareContents },
        },
        EntryStep::Copy { atomic: _ } => if ok {
            arrived(
                o,
                EntryDone {
                    counted: Some(f.size),
                    is_anchor: f.is_hardlinked && o.origin == EntryOrigin::Listed,
                },
                false,
            )
        } else {
            EntryStep::Failed { failure: EntryFailure::CopyFile }
        },
        EntryStep::Verify { done, hardlink } => if ok {
            EntryStep::Done { done }
        } else if hardlink {
            EntryStep::Failed { failure: EntryFailure::VerifyHardlink }
        } else {
            EntryStep::Failed { failure: EntryFailure::VerifyFile }
        },
        EntryStep::Done { done } => step,
        EntryStep::Failed { failure } => step,
    }
}

fn is_listed(o: EntryOptions) -> (r: bool)
    ensures
        r == (o.origin == EntryOrigin::Listed),
{
    match o.origin {
        EntryOrigin::Listed => true,
        _ => false,
    }
}

fn wants(o: EntryOptions, f: EntryFacts) -> (r: bool)
    ensures
        r == is_wanted(o, f),
{
    if o.sync && is_listed(o) {
        policy::sync_regular_file_change(
            f.size,
            f.mtime,
            f.dst_is_regular,
            f.dst_size,
            f.dst_mtime,
        ).is_some()
    } else {
        policy::regular_file_collision_change(
            o.policy,
            f.size,
            f.mtime,
            f.dst_exists,
            f.dst_size,
            f.dst_mtime,
        ).is_some()
    }
}

fn after_arrival(o: EntryOptions, done: EntryDone, hardlink: bool) -> (r: EntryStep)
    ensures
        r == arrived(o, done, hardlink),
{
    if o.verify {
        EntryStep::Verify { done, hardlink }
    } else {
        EntryStep::Done { done }
    }
}

fn leave_alone(o: EntryOptions, f: EntryFacts) -> (r: EntryStep)
    ensures
        r == left_alone(o, f),
{
    after_arrival(o, EntryDone { counted: Some(f.size), is_anchor: false }, false)
}

fn writes_beside(o: EntryOptions, f: EntryFacts) -> (r: bool)
    ensures
        r == is_atomic(o, f),
{
    (o.sync && is_listed(o)) || o.replace_links || !f.dst_is_link
}

/// Begins with an entry.
pub fn first_entry_step(o: EntryOptions, f: EntryFacts) -> (r: EntryStep)
    ensures
        r == first_entry_step_of(o, f),
{
    let listed = is_listed(o);
    let link = match f.kind {
        EntryKind::Link => true,
        _ => false,
    };
    let refuses = match o.origin {
        EntryOrigin::Listed => true,
        EntryOrigin::Single => !link,
        EntryOrigin::Walked => false,
    };
    if f.dst_is_dir && !o.sync && refuses {
        return EntryStep::Failed { failure: EntryFailure::IsADirectory };
    }
    if listed && f.has_anchor {
        return EntryStep::LinkToAnchor;
    }
    match f.kind {
        EntryKind::Link => if listed || !f.links_equal {
            EntryStep::CopyLink
        } else {
            EntryStep::Done { done: EntryDone { counted: Some(0), is_anchor: false } }
        },
        EntryKind::Regular => {
            let compares = o.compares_contents && !f.dst_is_link && match o.origin {
                EntryOrigin::Single => f.dst_exists,
                EntryOrigin::Listed => !o.sync && f.dst_is_regular,
                EntryOrigin::Walked => false,
            };
            if wants(o, f) {
                EntryStep::Copy { atomic: writes_beside(o, f) }
            } else if compares {
                EntryStep::Compare
            } else {
                leave_alone(o, f)
            }
        },
        EntryKind::Other => EntryStep::Done {
            done: EntryDone { counted: None, is_anchor: false },
        },
    }
}

/// Goes on with an entry.
pub fn next_entry_step(o: EntryOptions, f: EntryFacts, step: EntryStep, result: EntryResult) -> (r:
    EntryStep)
    ensures
        r == next_entry_step_of(o, f, step, result),
{
    let ok = match result {
        EntryResult::Succeeded => true,
        _ => false,
    };
    match step {
        EntryStep::LinkToAnchor => if ok {
            after_arrival(o, EntryDone { counted: Some(0), is_anchor: false }, true)
        } else {
            EntryStep::Failed { failure: EntryFailure::CreateHardlink }
        },
        EntryStep::CopyLink => if ok {
            EntryStep::Done { done: EntryDone { counted: Some(0), is_anchor: false } }
        } else {
            EntryStep::Failed { failure: EntryFailure::CopySymlink }
        },
        EntryStep::Compare => match result {
            EntryResult::Succeeded => leave_alone(o, f),
            EntryResult::Differs => EntryStep::Copy { atomic: writes_beside(o, f) },
            EntryResult::Error => EntryStep::Failed { failure: EntryFailure::CompareContents },
        },
        EntryStep::Copy { atomic: _ } => if ok {
            after_arrival(
                o,
                EntryDone { counted: Some(f.size), is_anchor: f.is_hardlinked && is_listed(o) },
                false,
            )
        } else {
            EntryStep::Failed { failure: EntryFailure::CopyFile }
        },
        EntryStep::Verify { done, hardlink } => if ok {
            EntryStep::Done { done }
        } else if hardlink {
            EntryStep::Failed { failure: EntryFailure::VerifyHardlink }
        } else {
            EntryStep::Failed { failure: EntryFailure::VerifyFile }
        },
        EntryStep::Done { done } => EntryStep::Done { done },
        EntryStep::Failed { failure } => EntryStep::Failed { failure },
    }
}

/// The word for a failure, as it stands before the path.
pub open spec fn failure_text(f: EntryFailure) -> Seq<char> {
    match f {
        EntryFailure::IsADirectory | EntryFailure::CopyFile => "copy file"@,
        EntryFailure::CreateHardlink => "create hardlink"@,
        EntryFailure::VerifyHardlink => "verify hardlink"@,
        EntryFailure::CopySymlink => "copy symlink"@,
        EntryFailure::CompareContents => "compare file contents"@,
        EntryFailure::VerifyFile => "verify file"@,
    }
}

impl EntryFailure {
    pub fn operation(self) -> (r: &'static str)
        ensures
            r@ == failure_text(self),
    {
        match self {
            EntryFailure::IsADirectory => "copy file",
            EntryFailure::CopyFile => "copy file",
            EntryFailure::CreateHardlink => "create hardlink",
            EntryFailure::VerifyHardlink => "verify hardlink",
            EntryFailure::CopySymlink => "copy symlink",
            EntryFailure::CompareContents => "compare file contents",
            EntryFailure::VerifyFile => "verify file",
        }
    }

    /// Tells whether the report of a failure names the destination, not the
    /// source.
    pub fn names_destination(self, origin: EntryOrigin) -> (r: bool)
        ensures
            r == (self == EntryFailure::CreateHardlink || self == EntryFailure::IsADirectory
                && origin == EntryOrigin::Single),
    {
        match (self, origin) {
            (EntryFailure::CreateHardlink, _) => true,
            (EntryFailure::IsADirectory, EntryOrigin::Single) => true,
            _ => false,
        }
    }

    /// Tells whether a failure is reported. Of an entry that a walk came upon
    /// only a failed verification is.
    pub fn is_reported(self, origin: EntryOrigin) -> (r: bool)
        ensures
            r == (origin != EntryOrigin::Walked || self == EntryFailure::VerifyFile),
    {
        match (self, origin) {
            (EntryFailure::VerifyFile, _) => true,
            (_, EntryOrigin::Walked) => false,
            _ => true,
        }
    }
}

/// A course that an entry can take.
pub open spec fn is_entry_course(
    o: EntryOptions,
    f: EntryFacts,
    course: Seq<(EntryStep, EntryResult)>,
) -> bool {
    &&& course.len() > 0 ==> course[0].0 == first_entry_step_of(o, f)
    &&& forall|i: int|
        0 <= i < course.len() - 1 ==> #[trigger] course[i + 1].0 == next_entry_step_of(
            o,
            f,
            course[i].0,
            course[i].1,
        )
}

/// With verification on, a regular file is done only once it was verified.
pub proof fn law_done_means_verified(
    o: EntryOptions,
    f: EntryFacts,
    course: Seq<(EntryStep, EntryResult)>,
    k: int,
)
    requires
        o.verify,
        f.kind == EntryKind::Regular,
        is_entry_course(o, f, course),
        0 <= k < course.len(),
        course[k].0 is Done,
    ensures
        exists|j: int|
            0 <= j < k && (#[trigger] course[j]).0 is Verify && course[j].1 == EntryResult::Succeeded,
    decreases k,
{
    lemma_no_copied_link(o, f, course, k);
    assert(k > 0);
    assert(course[k - 1 + 1].0 == next_entry_step_of(o, f, course[k - 1].0, course[k - 1].1));
    lemma_no_copied_link(o, f, course, k - 1);
    if course[k - 1].0 is Done {
        law_done_means_verified(o, f, course, k - 1);
    } else {
        assert(course[k - 1].0 is Verify);
    }
}

proof fn lemma_no_copied_link(
    o: EntryOptions,
    f: EntryFacts,
    course: Seq<(EntryStep, EntryResult)>,
    k: int,
)
    requires
        f.kind == EntryKind::Regular,
        is_entry_course(o, f, course),
        0 <= k < course.len(),
    ensures
        course[k].0 != EntryStep::CopyLink,
    decreases k,
{
    if k > 0 {
        assert(course[k - 1 + 1].0 == next_entry_step_of(o, f, course[k - 1].0, course[k - 1].1));
        lemma_no_copied_link(o, f, course, k - 1);
    }
}

/// Other names of an inode are linked only to a destination that was copied
/// itself.
pub proof fn law_anchors_were_copied(
    o: EntryOptions,
    f: EntryFacts,
    course: Seq<(EntryStep, EntryResult)>,
    k: int,
)
    requires
        is_entry_course(o, f, course),
        0 <= k < course.len(),
        anchors(course[k].0),
    ensures
        f.is_hardlinked,
        exists|j: int|
            0 <= j < k && (#[trigger] course[j]).0 is Copy && course[j].1 == EntryResult::Succeeded,
    decreases k,
{
    assert(k > 0);
    assert(course[k - 1 + 1].0 == next_entry_step_of(o, f, course[k - 1].0, course[k - 1].1));
    if anchors(course[k - 1].0) {
        law_anchors_were_copied(o, f, course, k - 1);
    } else {
        assert(course[k - 1].0 is Copy);
    }
}

/// Whether a step of a kind went well before `k`.
pub open spec fn copied_before(course: Seq<(EntryStep, EntryResult)>, k: int) -> bool {
    exists|j: int|
        0 <= j < k && (#[trigger] course[j]).0 is Copy && course[j].1 == EntryResult::Succeeded
}

/// Whether the contents were compared before `k` and found equal.
pub open spec fn found_equal_before(course: Seq<(EntryStep, EntryResult)>, k: int) -> bool {
    exists|j: int|
        0 <= j < k && (#[trigger] course[j]) == (EntryStep::Compare, EntryResult::Succeeded)
}

/// A regular file whose contents were compared and differ is copied next.
pub proof fn law_what_differs_is_copied(
    o: EntryOptions,
    f: EntryFacts,
    course: Seq<(EntryStep, EntryResult)>,
    k: int,
)
    requires
        is_entry_course(o, f, course),
        0 <= k < course.len() - 1,
        course[k] == (EntryStep::Compare, EntryResult::Differs),
    ensures
        course[k + 1].0 is Copy,
{
    assert(course[k + 1].0 == next_entry_step_of(o, f, course[k].0, course[k].1));
}

/// A regular file whose contents were compared is done only once they were found
/// equal or it was copied.
pub proof fn law_compared_files_arrive(
    o: EntryOptions,
    f: EntryFacts,
    course: Seq<(EntryStep, EntryResult)>,
    j: int,
    k: int,
)
    requires
        is_entry_course(o, f, course),
        0 <= j < k < course.len(),
        course[j].0 == EntryStep::Compare,
        course[k].0 is Done,
    ensures
        course[j].1 == EntryResult::Succeeded || copied_before(course, k),
{
    lemma_entry_course(o, f, course, j);
    lemma_entry_course(o, f, course, k);
}

proof fn lemma_entry_course(
    o: EntryOptions,
    f: EntryFacts,
    course: Seq<(EntryStep, EntryResult)>,
    k: int,
)
    requires
        is_entry_course(o, f, course),
        0 <= k < course.len(),
    ensures
        course[k].0 is Compare ==> k == 0,
        course[k].0 is CopyLink ==> k == 0,
        course[k].0 is LinkToAnchor ==> k == 0,
        course[k].0 is Copy ==> k == 0 || k == 1 && course[0] == (
            EntryStep::Compare,
            EntryResult::Differs,
        ),
        k > 0 && course[k].0 is Done ==> {
            ||| copied_before(course, k)
            ||| course[0] == (EntryStep::Compare, EntryResult::Succeeded)
            ||| course[0] == (EntryStep::CopyLink, EntryResult::Succeeded)
            ||| course[0] == (EntryStep::LinkToAnchor, EntryResult::Succeeded)
            ||| course[0].0 is Done
            ||| course[0].0 is Verify
        },
        k > 0 && course[k].0 is Verify ==> {
            ||| copied_before(course, k)
            ||| course[0] == (EntryStep::Compare, EntryResult::Succeeded)
            ||| course[0] == (EntryStep::LinkToAnchor, EntryResult::Succeeded)
        },
    decreases k,
{
    if k > 0 {
        assert(course[k - 1 + 1].0 == next_entry_step_of(o, f, course[k - 1].0, course[k - 1].1));
        lemma_entry_course(o, f, course, k - 1);
        if copied_before(course, k - 1) {
            let j = choose|j: int|
                0 <= j < k - 1 && (#[trigger] course[j]).0 is Copy && course[j].1
                    == EntryResult::Succeeded;
            assert(0 <= j < k && course[j].0 is Copy && course[j].1 == EntryResult::Succeeded);
        }
        if course[k - 1].0 is Copy && course[k - 1].1 == EntryResult::Succeeded {
            assert(copied_before(course, k));
        }
    }
}

/// A regular file is done only once it was copied, was linked to a copy, was found
/// equal, or was left alone from the start.
pub proof fn law_done_means_arrived(
    o: EntryOptions,
    f: EntryFacts,
    course: Seq<(EntryStep, EntryResult)>,
    k: int,
)
    requires
        f.kind == EntryKind::Regular,
        is_entry_course(o, f, course),
        0 <= k < course.len(),
        course[k].0 is Done,
    ensures
        ({
            ||| copied_before(course, k)
            ||| found_equal_before(course, k)
            ||| k > 0 && course[0] == (EntryStep::LinkToAnchor, EntryResult::Succeeded)
            ||| course[0].0 is Done
            ||| course[0].0 is Verify
        }),
{
    lemma_entry_course(o, f, course, k);
    lemma_no_copied_link(o, f, course, 0);
    if k > 0 && course[0] == (EntryStep::Compare, EntryResult::Succeeded) {
        assert(found_equal_before(course, k));
    }
}

/// A regular file that has nothing in its place is copied, unless it is another name
/// of what was copied already.
pub proof fn law_a_missing_file_is_copied(o: EntryOptions, f: EntryFacts)
    requires
        f.kind == EntryKind::Regular,
        !f.dst_exists && !f.dst_is_regular && !f.dst_is_dir,
        f.dst_size is None,
        !(o.origin == EntryOrigin::Listed && f.has_anchor),
    ensures
        first_entry_step_of(o, f) is Copy,
{
}

/// A listed file of a sync is left alone exactly when a regular file of its size and
/// with its time stands in its place, and copied else.
pub proof fn law_a_sync_copies_what_is_not_current(o: EntryOptions, f: EntryFacts)
    requires
        f.kind == EntryKind::Regular,
        o.sync && o.origin == EntryOrigin::Listed,
        !f.has_anchor,
    ensures
        ({
            let current = f.dst_is_regular && f.dst_size == Some(f.size) && f.mtime is Some
                && f.dst_mtime == f.mtime;
            &&& !current ==> first_entry_step_of(o, f) == EntryStep::Copy { atomic: true }
            &&& current ==> !(first_entry_step_of(o, f) is Copy)
            &&& !(first_entry_step_of(o, f) is Compare)
            &&& !(first_entry_step_of(o, f) is Failed)
        }),
{
}

/// Under the rule in force when none is given, a file over an existing regular one is
/// copied at once where the sizes differ, and where they do not, only once the
/// contents were found to differ, if contents are compared.
pub proof fn law_the_default_rule_trusts_contents(o: EntryOptions, f: EntryFacts)
    requires
        f.kind == EntryKind::Regular,
        o.policy == crate::domain::default_policy(),
        !o.sync,
        o.compares_contents,
        o.origin != EntryOrigin::Walked,
        f.dst_exists && f.dst_is_regular && !f.dst_is_dir && !f.dst_is_link,
        !(o.origin == EntryOrigin::Listed && f.has_anchor),
    ensures
        f.dst_size == Some(f.size) ==> first_entry_step_of(o, f) == EntryStep::Compare,
        f.dst_size != Some(f.size) ==> first_entry_step_of(o, f) is Copy,
{
}

/// Without a sync an existing file is copied exactly where the collision rule has it
/// replaced, or where its contents are compared and differ: what is left alone from
/// the start is neither wanted by the rule nor compared.
pub proof fn law_the_rule_decides_on_existing_files(o: EntryOptions, f: EntryFacts)
    requires
        f.kind == EntryKind::Regular,
        !o.sync,
        f.dst_exists && !f.dst_is_dir,
        !(o.origin == EntryOrigin::Listed && f.has_anchor),
    ensures
        ({
            let replaced = policy::collision_change(
                o.policy,
                f.size,
                f.mtime,
                true,
                f.dst_size,
                f.dst_mtime,
            ) == Some(crate::domain::ChangeKind::ModFile);
            let first = first_entry_step_of(o, f);
            &&& first is Copy <==> replaced
            &&& first is Compare ==> o.compares_contents && !f.dst_is_link
            &&& (!replaced && o.compares_contents && !f.dst_is_link && f.dst_is_regular && o.origin
                != EntryOrigin::Walked) ==> first is Compare
            &&& !(first is Failed)
        }),
{
}

/// A directory that stands in the place of a listed file is not touched, unless by a
/// sync.
pub proof fn law_directories_are_not_overwritten(
    o: EntryOptions,
    f: EntryFacts,
    course: Seq<(EntryStep, EntryResult)>,
    k: int,
)
    requires
        f.dst_is_dir && !o.sync,
        o.origin == EntryOrigin::Listed || o.origin == EntryOrigin::Single && f.kind
            == EntryKind::Regular,
        is_entry_course(o, f, course),
        0 <= k < course.len(),
    ensures
        course[k].0 == (EntryStep::Failed { failure: EntryFailure::IsADirectory }),
    decreases k,
{
    if k > 0 {
        assert(course[k - 1 + 1].0 == next_entry_step_of(o, f, course[k - 1].0, course[k - 1].1));
        law_directories_are_not_overwritten(o, f, course, k - 1);
    }
}

/// What goes wrong is not counted as done: after a step that had an error the entry
/// has failed, and stays so.
pub proof fn law_errors_end_an_entry(
    o: EntryOptions,
    f: EntryFacts,
    course: Seq<(EntryStep, EntryResult)>,
    j: int,
    k: int,
)
    requires
        is_entry_course(o, f, course),
        0 <= j < k < course.len(),
        !(course[j].0 is Done),
        course[j].1 == EntryResult::Error || course[j].1 == EntryResult::Differs && !(course[j].0
            is Compare),
    ensures
        course[k].0 is Failed,
    decreases k,
{
    assert(course[k - 1 + 1].0 == next_entry_step_of(o, f, course[k - 1].0, course[k - 1].1));
    if j < k - 1 {
        law_errors_end_an_entry(o, f, course, j, k - 1);
    }
}

/// What is done stays done.
pub proof fn law_done_entries_stay_done(
    o: EntryOptions,
    f: EntryFacts,
    course: Seq<(EntryStep, EntryResult)>,
    k: int,
)
    requires
        is_entry_course(o, f, course),
        0 <= k < course.len() - 1,
        course[k].0 is Done,
    ensures
        course[k + 1].0 == course[k].0,
{
    assert(course[k + 1].0 == next_entry_step_of(o, f, course[k].0, course[k].1));
}

/// A regular file counts with its size, or with nothing where it is linked to what was
/// copied already; a symbolic link counts with nothing, and what is neither does not
/// count.
pub proof fn law_entries_count_with_their_size(
    o: EntryOptions,
    f: EntryFacts,
    course: Seq<(EntryStep, EntryResult)>,
    k: int,
)
    requires
        is_entry_course(o, f, course),
        0 <= k < course.len(),
        course[k].0 is Done || course[k].0 is Verify,
    ensures
        ({
            let done = match course[k].0 {
                EntryStep::Done { done } => done,
                EntryStep::Verify { done, .. } => done,
                _ => EntryDone { counted: None, is_anchor: false },
            };
            let linked = o.origin == EntryOrigin::Listed && f.has_anchor;
            done.counted == (if linked || f.kind == EntryKind::Link {
                Some(0u64)
            } else if f.kind == EntryKind::Regular {
                Some(f.size)
            } else {
                None
            })
        }),
    decreases k,
{
    lemma_entry_kinds(o, f, course, k);
    if k > 0 {
        assert(course[k - 1 + 1].0 == next_entry_step_of(o, f, course[k - 1].0, course[k - 1].1));
        lemma_entry_kinds(o, f, course, k - 1);
        if course[k - 1].0 is Done || course[k - 1].0 is Verify {
            law_entries_count_with_their_size(o, f, course, k - 1);
        }
    }
}

proof fn lemma_entry_kinds(
    o: EntryOptions,
    f: EntryFacts,
    course: Seq<(EntryStep, EntryResult)>,
    k: int,
)
    requires
        is_entry_course(o, f, course),
        0 <= k < course.len(),
    ensures
        course[k].0 is LinkToAnchor ==> o.origin == EntryOrigin::Listed && f.has_anchor,
        course[k].0 is Copy || course[k].0 is Compare ==> f.kind == EntryKind::Regular && !(o.origin
            == EntryOrigin::Listed && f.has_anchor),
        course[k].0 is CopyLink ==> f.kind == EntryKind::Link && !(o.origin == EntryOrigin::Listed
            && f.has_anchor),
    decreases k,
{
    if k > 0 {
        assert(course[k - 1 + 1].0 == next_entry_step_of(o, f, course[k - 1].0, course[k - 1].1));
        lemma_entry_kinds(o, f, course, k - 1);
    }
}

/// A listed file with more names becomes their anchor once it was copied.
pub proof fn law_copies_become_anchors(
    o: EntryOptions,
    f: EntryFacts,
    course: Seq<(EntryStep, EntryResult)>,
    j: int,
    k: int,
)
    requires
        o.origin == EntryOrigin::Listed,
        f.is_hardlinked,
        is_entry_course(o, f, course),
        0 <= j < k < course.len(),
        course[j].0 is Copy && course[j].1 == EntryResult::Succeeded,
        course[k].0 is Done || course[k].0 is Verify,
    ensures
        anchors(course[k].0),
    decreases k,
{
    assert(course[k - 1 + 1].0 == next_entry_step_of(o, f, course[k - 1].0, course[k - 1].1));
    lemma_entry_course(o, f, course, j);
    lemma_entry_course(o, f, course, k - 1);
    if j < k - 1 {
        assert(course[j + 1].0 == next_entry_step_of(o, f, course[j].0, course[j].1));
        law_copies_become_anchors(o, f, course, j, k - 1);
    }
}

/// A name of an inode that was copied already is linked to that copy, and nothing else
/// is; the entry is done only once the link stands.
pub proof fn law_names_of_a_copy_are_linked(
    o: EntryOptions,
    f: EntryFacts,
    course: Seq<(EntryStep, EntryResult)>,
    k: int,
)
    requires
        is_entry_course(o, f, course),
        0 <= k < course.len(),
        o.origin == EntryOrigin::Listed && f.has_anchor,
        course[k].0 is Done,
    ensures
        k > 0,
        course[0] == (EntryStep::LinkToAnchor, EntryResult::Succeeded),
{
    lemma_entry_course(o, f, course, k);
    lemma_entry_kinds(o, f, course, 0);
    if copied_before(course, k) {
        let j = choose|j: int|
            0 <= j < k && (#[trigger] course[j]).0 is Copy && course[j].1 == EntryResult::Succeeded;
        lemma_entry_kinds(o, f, course, j);
    }
}

/// A symbolic link is done only once it was copied, or where its counterpart leads to
/// the same place already.
pub proof fn law_links_are_copied_unless_equal(
    o: EntryOptions,
    f: EntryFacts,
    course: Seq<(EntryStep, EntryResult)>,
    k: int,
)
    requires
        f.kind == EntryKind::Link,
        !(o.origin == EntryOrigin::Listed && f.has_anchor),
        is_entry_course(o, f, course),
        0 <= k < course.len(),
        course[k].0 is Done,
    ensures
        (k > 0 && course[0] == (EntryStep::CopyLink, EntryResult::Succeeded)) || f.links_equal
            && o.origin != EntryOrigin::Listed,
{
    lemma_entry_course(o, f, course, k);
    lemma_entry_kinds(o, f, course, 0);
    if copied_before(course, k) {
        let j = choose|j: int|
            0 <= j < k && (#[trigger] course[j]).0 is Copy && course[j].1 == EntryResult::Succeeded;
        lemma_entry_kinds(o, f, course, j);
    }
}

/// A file is written beside its place, so that no half of it is ever seen there; only
/// what goes through a symbolic link that is to stay is written in place.
pub proof fn law_copies_are_atomic(
    o: EntryOptions,
    f: EntryFacts,
    course: Seq<(EntryStep, EntryResult)>,
    k: int,
)
    requires
        is_entry_course(o, f, course),
        0 <= k < course.len(),
        course[k].0 == (EntryStep::Copy { atomic: false }),
    ensures
        f.dst_is_link && !o.replace_links,
{
    lemma_entry_course(o, f, course, k);
    if k > 0 {
        assert(course[k - 1 + 1].0 == next_entry_step_of(o, f, course[k - 1].0, course[k - 1].1));
    }
}

/// A link that is to stay is written through, and not replaced.
pub proof fn law_links_that_stay_are_written_through(
    o: EntryOptions,
    f: EntryFacts,
    course: Seq<(EntryStep, EntryResult)>,
    k: int,
)
    requires
        is_entry_course(o, f, course),
        0 <= k < course.len(),
        course[k].0 == (EntryStep::Copy { atomic: true }),
        !o.sync,
    ensures
        !f.dst_is_link || o.replace_links,
{
    lemma_entry_course(o, f, course, k);
    if k > 0 {
        assert(course[k - 1 + 1].0 == next_entry_step_of(o, f, course[k - 1].0, course[k - 1].1));
    }
}

/// Nothing is verified unless that is asked for.
pub proof fn law_verification_is_asked_for(
    o: EntryOptions,
    f: EntryFacts,
    course: Seq<(EntryStep, EntryResult)>,
    k: int,
)
    requires
        !o.verify,
        is_entry_course(o, f, course),
        0 <= k < course.len(),
    ensures
        !(course[k].0 is Verify),
    decreases k,
{
    if k > 0 {
        assert(course[k - 1 + 1].0 == next_entry_step_of(o, f, course[k - 1].0, course[k - 1].1));
        law_verification_is_asked_for(o, f, course, k - 1);
    }
}

/// Whether a step is about to make, or has made, its destination an anchor.
pub open spec fn anchors(step: EntryStep) -> bool {
    match step {
        EntryStep::Verify { done, .. } => done.is_anchor,
        EntryStep::Done { done } => done.is_anchor,
        _ => false,
    }
}

/// Where a single file goes.
pub open spec fn file_target_of(
    source: Seq<char>,
    destination: Seq<char>,
    into: bool,
) -> Option<Seq<char>> {
    if !into {
        Some(destination)
    } else {
        match paths::last_name(source) {
            Some(n) => Some(paths::joined_path(destination, n)),
            None => None,
        }
    }
}

/// A file that goes into a directory keeps its name there, byte for byte, whether it
/// is UTF-8 or not; one that does not go into a directory goes to the destination
/// exactly.
pub proof fn law_a_file_keeps_its_exact_name(source: Seq<u8>, destination: Seq<u8>)
    requires
        destination.len() > 0 && destination.last() != 47,
        crate::names::pieces_of(source).last().len() > 0,
        crate::names::pieces_of(source).last() != seq![46u8],
        crate::names::pieces_of(source).last() != seq![46u8, 46u8],
    ensures
        ({
            let name = crate::names::pieces_of(source).last();
            let into = file_target_of(
                crate::names::path_text_of(source),
                crate::names::path_text_of(destination),
                true,
            );
            let to = file_target_of(
                crate::names::path_text_of(source),
                crate::names::path_text_of(destination),
                false,
            );
            &&& into is Some && crate::names::path_bytes_of(into->0) == destination.push(47) + name
            &&& to is Some && crate::names::path_bytes_of(to->0) == destination
        }),
{
    let from = crate::names::path_text_of(source);
    let name = crate::names::pieces_of(source).last();
    let own = crate::names::name_text_of(name);
    crate::names::law_last_name_is_exact(source);
    crate::names::law_paths_are_kept(destination);
    crate::names::law_names_are_kept(name);
    crate::aggregation::lemma_comps_are_parts(from);
    let parts = paths::comps(from);
    assert(parts[parts.len() - 1] == own);
    crate::names::lemma_one_name(own);
    paths::lemma_single_name(own);
    crate::names::law_joining_keeps_bytes(crate::names::path_text_of(destination), own);
    crate::names::lemma_ends_alike(crate::names::path_text_of(destination));
    assert(destination + seq![47u8] == destination.push(47));
}

/// Finds where a single file goes: into a directory, unless that is a link
/// which is to be replaced. The texts stand for paths byte for byte, see `names`.
pub fn file_target(
    source: &str,
    destination: &str,
    is_dir: bool,
    is_link: bool,
    replace_links: bool,
) -> (r: Option<String>)
    ensures
        paths::opt_text(r) == file_target_of(
            source@,
            destination@,
            is_dir && !(replace_links && is_link),
        ),
{
    if !(is_dir && !(replace_links && is_link)) {
        return Some(text::copy(destination));
    }
    match paths::file_name(source) {
        Some(n) => Some(paths::join_path(destination, n.as_str())),
        None => None,
    }
}

/// The place of directory `i` among the operations.
pub fn dir_operation(include_root: bool, i: usize) -> (r: usize)
    requires
        i < usize::MAX,
    ensures
        r == (if include_root {
            i + 1
        } else {
            i as int
        }),
{
    if include_root {
        i + 1
    } else {
        i
    }
}

/// The place of file `i` among the operations.
pub fn file_operation(m: &TransferManifest, include_root: bool, i: usize) -> (r: usize)
    requires
        i < m.copy_files@.len(),
        m.dirs@.len() + m.copy_files@.len() + m.dir_times@.len() < usize::MAX,
    ensures
        0 <= r < workload::manifest_ops(*m, include_root).len(),
        workload::manifest_ops(*m, include_root)[r as int] == workload::file_op(
            m.copy_files@[i as int].size,
        ),
        r == m.dirs@.len() + i + (if include_root {
            1int
        } else {
            0
        }),
{
    let base: usize = if include_root {
        1
    } else {
        0
    };
    base + m.dirs.len() + i
}

/// The place of the times of directory `i` among the operations.
pub fn times_operation(m: &TransferManifest, include_root: bool, i: usize) -> (r: usize)
    requires
        i < m.dir_times@.len(),
        m.dirs@.len() + m.copy_files@.len() + m.dir_times@.len() < usize::MAX,
    ensures
        0 <= r < workload::manifest_ops(*m, include_root).len(),
        workload::manifest_ops(*m, include_root)[r as int] == workload::metadata_op(),
        r == m.dirs@.len() + m.copy_files@.len() + i + (if include_root {
            1int
        } else {
            0
        }),
{
    let base: usize = if include_root {
        1
    } else {
        0
    };
    base + m.dirs.len() + m.copy_files.len() + i
}

/// Tests whether more names of a listed file's inode may follow.
pub fn shares_inode(e: &ManifestFileEntry) -> (r: bool)
    ensures
        r == (!e.is_symlink && e.nlink > 1),
{
    !e.is_symlink && e.nlink > 1
}

/// The exit status of a transfer; an interrupt has its own.
pub fn transfer_status(interrupted: bool, status: i32) -> (r: i32)
    ensures
        r == (if interrupted {
            130
        } else {
            status
        }),
{
    if interrupted {
        130
    } else {
        status
    }
}

/// Where a walk's entry goes: its place below the destination, or nowhere for
/// the root itself and what is left out.
pub open spec fn walk_target_of(
    path: Seq<char>,
    root: Seq<char>,
    include_root: bool,
    destination: Seq<char>,
    exclude: Option<Seq<char>>,
) -> Option<Seq<char>> {
    let rel = if paths::under(path, root) {
        text::joined(paths::below(path, root), "/"@)
    } else {
        Seq::empty()
    };
    if paths::same_path(path, root) || paths::last_name(root) is None || exclude is Some
        && paths::matches_prefix(rel, exclude->0) {
        None
    } else {
        Some(paths::dest_path(include_root, paths::last_name(root)->0, rel, destination))
    }
}

/// Finds where a walk's entry goes. The texts stand for paths byte for byte, see
/// `names`.
pub fn walk_target(
    path: &str,
    root: &str,
    include_root: bool,
    destination: &str,
    exclude: Option<&str>,
) -> (r: Option<String>)
    ensures
        paths::opt_text(r) == walk_target_of(
            path@,
            root@,
            include_root,
            destination@,
            match exclude {
                Some(s) => Some(s@),
                None => None,
            },
        ),
{
    if paths::paths_equal(path, root) {
        return None;
    }
    let base = match paths::file_name(root) {
        Some(n) => n,
        None => {
            return None;
        },
    };
    let rel = match paths::relative_to(path, root) {
        Some(rel) => rel,
        None => {
            let rel = String::new();
            assert(rel@ == Seq::<char>::empty());
            rel
        },
    };
    if let Some(prefix) = exclude {
        if paths::rel_matches_prefix(rel.as_str(), prefix) {
            return None;
        }
    }
    Some(paths::map_dir_dest_path(include_root, base.as_str(), rel.as_str(), destination))
}

/// The regular files that a plan reads.
pub open spec fn planned_sources_of(source: Seq<char>, files: Seq<ManifestFileEntry>) -> Seq<
    Seq<char>,
>
    decreases files.len(),
{
    if files.len() == 0 {
        Seq::empty()
    } else {
        let before = planned_sources_of(source, files.drop_last());
        if files.last().is_symlink {
            before
        } else {
            before.push(paths::joined_path(source, files.last().rel@))
        }
    }
}

/// Lists the regular files that a plan reads.
pub fn planned_regular_source_paths(source: &str, m: &TransferManifest) -> (r: Vec<String>)
    ensures
        text::texts(r@) == planned_sources_of(source@, m.copy_files@),
{
    let mut out: Vec<String> = Vec::new();
    let mut i: usize = 0;
    assert(m.copy_files@.take(0) == Seq::<ManifestFileEntry>::empty());
    assert(text::texts(out@) == planned_sources_of(source@, m.copy_files@.take(0)));
    while i < m.copy_files.len()
        invariant
            i <= m.copy_files@.len(),
            text::texts(out@) == planned_sources_of(source@, m.copy_files@.take(i as int)),
        decreases m.copy_files@.len() - i,
    {
        assert(m.copy_files@.take(i + 1).drop_last() == m.copy_files@.take(i as int));
        let e = &m.copy_files[i];
        if !e.is_symlink {
            let ghost before = out@;
            let path = paths::join_path(source, e.rel.as_str());
            out.push(path);
            assert(text::texts(out@) == text::texts(before).push(path@));
        }
        i = i + 1;
    }
    assert(m.copy_files@.take(m.copy_files@.len() as int) == m.copy_files@);
    out
}

/// The regular files that a plan reads are those that it lists, links left out, each at its
/// place below the source.
pub proof fn law_plans_read_their_files(
    source: Seq<char>,
    files: Seq<ManifestFileEntry>,
    p: Seq<char>,
)
    ensures
        planned_sources_of(source, files).contains(p) <==> exists|i: int|
            0 <= i < files.len() && !(#[trigger] files[i]).is_symlink && p == paths::joined_path(
                source,
                files[i].rel@,
            ),
        planned_sources_of(source, files).len() == files.filter(
            |f: ManifestFileEntry| !f.is_symlink,
        ).len(),
    decreases files.len(),
{
    reveal(Seq::filter);
    let all = planned_sources_of(source, files);
    if files.len() > 0 {
        let less = files.drop_last();
        let rest = planned_sources_of(source, less);
        let last = files.last();
        law_plans_read_their_files(source, less, p);
        if all.contains(p) {
            let k = choose|k: int| 0 <= k < all.len() && all[k] == p;
            if k < rest.len() {
                assert(rest[k] == p);
                let i = choose|i: int|
                    0 <= i < less.len() && !(#[trigger] less[i]).is_symlink && p
                        == paths::joined_path(source, less[i].rel@);
                assert(files[i] == less[i]);
            } else {
                assert(files[files.len() - 1] == last);
            }
        }
        if exists|i: int|
            0 <= i < files.len() && !(#[trigger] files[i]).is_symlink && p == paths::joined_path(
                source,
                files[i].rel@,
            ) {
            let i = choose|i: int|
                0 <= i < files.len() && !(#[trigger] files[i]).is_symlink && p
                    == paths::joined_path(source, files[i].rel@);
            if i < less.len() {
                assert(less[i] == files[i]);
                let k = choose|k: int| 0 <= k < rest.len() && rest[k] == p;
                assert(all[k] == p);
            } else {
                assert(all[all.len() - 1] == p);
            }
        }
    }
}

/// The root of a walk goes nowhere, and neither does what is left out; everything else below
/// it goes below the destination.
pub proof fn law_walks_go_below_the_destination(
    path: Seq<char>,
    root: Seq<char>,
    include_root: bool,
    destination: Seq<char>,
    exclude: Option<Seq<char>>,
)
    requires
        paths::last_name(root) is Some,
    ensures
        ({
            let r = walk_target_of(path, root, include_root, destination, exclude);
            let rel = text::joined(paths::below(path, root), "/"@);
            &&& paths::same_path(path, root) ==> r is None
            &&& paths::under(path, root) && (exclude matches Some(x) && (rel == x || text::begins(
                rel,
                x + seq!['/'],
            ))) ==> r is None
            &&& paths::under(path, root) && !paths::same_path(path, root) && exclude is None ==> r
                is Some
            &&& paths::under(path, root) && r is Some && !include_root && rel.len() > 0 ==> r
                == Some(paths::joined_path(destination, rel))
            &&& paths::under(path, root) && r is Some && include_root && rel.len() > 0 ==> r == Some(
                paths::joined_path(
                    paths::joined_path(destination, paths::last_name(root)->0),
                    rel,
                ),
            )
        }),
{
    match exclude {
        Some(x) => {
            assert(x.push('/') == x + seq!['/']);
        },
        None => {},
    }
}

/// What a failure is called tells the step that failed, and a link is verified as a link and
/// a copy as a file.
pub proof fn law_entry_failures_tell_the_step(
    o: EntryOptions,
    f: EntryFacts,
    step: EntryStep,
    result: EntryResult,
)
    requires
        !(step is Done || step is Failed),
    ensures
        ({
            let next = next_entry_step_of(o, f, step, result);
            &&& next matches EntryStep::Failed { failure } ==> result != EntryResult::Succeeded && (
            failure == EntryFailure::CreateHardlink <==> step is LinkToAnchor) && (failure
                == EntryFailure::CopySymlink <==> step is CopyLink) && (failure
                == EntryFailure::CompareContents <==> step is Compare) && (failure
                == EntryFailure::CopyFile <==> step is Copy) && (failure
                == EntryFailure::VerifyHardlink || failure == EntryFailure::VerifyFile <==> step
                is Verify)
            &&& next matches EntryStep::Verify { hardlink, .. } ==> (step is LinkToAnchor
                ==> hardlink) && (step is Copy ==> !hardlink)
            &&& step matches EntryStep::Verify { hardlink, .. } ==> (next matches EntryStep::Failed {
                failure,
            } ==> (failure == EntryFailure::VerifyHardlink <==> hardlink))
        }),
{
}

} // verus!
