//! Collision rules and the relation between a source file and its
//! destination counterpart.

use crate::domain::{
    ChangeKind, CollisionCombineMode, CollisionPredicates, CollisionWinner, FileRelationBreakdown,
    MergeCollisionPolicy,
};
use crate::text;
use vstd::prelude::*;

verus! {

/// The message for a condition that no rule knows.
pub open spec fn unknown_condition(token: Seq<char>) -> Seq<char> {
    "unknown collision condition '"@ + token
        + "'; expected always, newer, larger, or size-differs"@
}

/// The conditions named by `tokens` from position `i` on, on top of `seen`; or
/// the message for the first token that names none.
pub open spec fn named_conditions(
    tokens: Seq<Seq<char>>,
    i: int,
    seen: CollisionPredicates,
) -> Result<CollisionPredicates, Seq<char>>
    decreases tokens.len() - i,
{
    if i < 0 || i >= tokens.len() {
        Ok(seen)
    } else {
        let token = text::trimmed(tokens[i]);
        if token == "always"@ {
            named_conditions(tokens, i + 1, CollisionPredicates { always: true, ..seen })
        } else if token == "newer"@ {
            named_conditions(tokens, i + 1, CollisionPredicates { newer: true, ..seen })
        } else if token == "larger"@ {
            named_conditions(tokens, i + 1, CollisionPredicates { larger: true, ..seen })
        } else if token == "size-differs"@ {
            named_conditions(tokens, i + 1, CollisionPredicates { size_differs: true, ..seen })
        } else if token.len() == 0 {
            Err("collision rule contains an empty condition"@)
        } else {
            Err(unknown_condition(token))
        }
    }
}

/// No condition set.
pub open spec fn no_predicates() -> CollisionPredicates {
    CollisionPredicates { always: false, newer: false, larger: false, size_differs: false }
}

/// The rule written as `winner:condition`, with conditions separated by commas
/// (any of them) or plus signs (all of them); or what is wrong with it.
pub open spec fn policy_of(raw: Seq<char>) -> Result<MergeCollisionPolicy, Seq<char>> {
    let colon = text::find_char(raw, ':') as int;
    if colon == raw.len() {
        Err("expected winner:rule"@)
    } else {
        let side = raw.take(colon);
        let rule = raw.skip(colon + 1);
        if side != "source"@ && side != "dest"@ {
            Err("winner must be 'source' or 'dest'"@)
        } else if rule.len() == 0 {
            Err("collision rule cannot be empty"@)
        } else if rule.contains(',') && rule.contains('+') {
            Err("use either ',' (or) or '+' (and), not both, in one --collision rule"@)
        } else {
            let all = rule.contains('+');
            let tokens = text::split_on(rule, if all {
                '+'
            } else {
                ','
            });
            match named_conditions(tokens, 0, no_predicates()) {
                Err(message) => Err(message),
                Ok(predicates) => Ok(
                    MergeCollisionPolicy {
                        winner: if side == "source"@ {
                            CollisionWinner::Source
                        } else {
                            CollisionWinner::Dest
                        },
                        combine: if all {
                            CollisionCombineMode::All
                        } else {
                            CollisionCombineMode::Any
                        },
                        predicates,
                    },
                ),
            }
        }
    }
}

/// Reads a collision rule.
pub fn parse_merge_collision_policy(raw: &str) -> (r: Result<MergeCollisionPolicy, String>)
    ensures
        match r {
            Ok(policy) => policy_of(raw@) == Ok::<MergeCollisionPolicy, Seq<char>>(policy),
            Err(message) => policy_of(raw@) == Err::<MergeCollisionPolicy, Seq<char>>(message@),
        },
{
    let chars = text::to_chars(raw);
    let colon: usize = text::find(chars.as_slice(), ':');
    if colon == chars.len() {
        return Err("expected winner:rule".to_owned());
    }
    let side = text::part(chars.as_slice(), 0, colon);
    let rule = text::part(chars.as_slice(), colon + 1, chars.len());
    assert(side@ == raw@.take(colon as int));
    assert(rule@ == raw@.skip(colon + 1));
    let winner = if text::is_text(side.as_slice(), "source") {
        CollisionWinner::Source
    } else if text::is_text(side.as_slice(), "dest") {
        CollisionWinner::Dest
    } else {
        return Err("winner must be 'source' or 'dest'".to_owned());
    };
    if rule.len() == 0 {
        return Err("collision rule cannot be empty".to_owned());
    }
    let all = text::has_char(rule.as_slice(), '+');
    if text::has_char(rule.as_slice(), ',') && all {
        return Err(
            "use either ',' (or) or '+' (and), not both, in one --collision rule".to_owned(),
        );
    }
    let tokens = text::split(
        rule.as_slice(),
        if all {
            '+'
        } else {
            ','
        },
    );
    let ghost names = text::rows(tokens@);
    let mut predicates = CollisionPredicates {
        always: false,
        newer: false,
        larger: false,
        size_differs: false,
    };
    let mut i: usize = 0;
    while i < tokens.len()
        invariant
            i <= tokens@.len(),
            names == text::rows(tokens@),
            named_conditions(names, 0, no_predicates()) == named_conditions(
                names,
                i as int,
                predicates,
            ),
            raw@ == chars@,
            colon == text::find_char(raw@, ':'),
            colon < raw@.len(),
            side@ == raw@.take(colon as int),
            rule@ == raw@.skip(colon + 1),
            side@ == "source"@ || side@ == "dest"@,
            rule@.len() > 0,
            all == rule@.contains('+'),
            !(rule@.contains(',') && rule@.contains('+')),
            names == text::split_on(rule@, if all {
                '+'
            } else {
                ','
            }),
        decreases tokens@.len() - i,
    {
        let token = text::trim(tokens[i].as_slice());
        assert(names[i as int] == tokens@[i as int]@);
        if text::is_text(token.as_slice(), "always") {
            predicates.always = true;
        } else if text::is_text(token.as_slice(), "newer") {
            predicates.newer = true;
        } else if text::is_text(token.as_slice(), "larger") {
            predicates.larger = true;
        } else if text::is_text(token.as_slice(), "size-differs") {
            predicates.size_differs = true;
        } else if token.len() == 0 {
            return Err("collision rule contains an empty condition".to_owned());
        } else {
            let mut message = "unknown collision condition '".to_owned();
            message.push_str(text::from_chars(token.as_slice()).as_str());
            message.push_str("'; expected always, newer, larger, or size-differs");
            assert(message@ == unknown_condition(token@));
            return Err(message);
        }
        i = i + 1;
    }
    Ok(
        MergeCollisionPolicy {
            winner,
            combine: if all {
                CollisionCombineMode::All
            } else {
                CollisionCombineMode::Any
            },
            predicates,
        },
    )
}

/// Some condition of the rule is known to hold.
pub open spec fn some_holds(
    policy: MergeCollisionPolicy,
    src_size: u64,
    src_mtime: Option<i128>,
    dst_size: Option<u64>,
    dst_mtime: Option<i128>,
) -> bool {
    let p = policy.predicates;
    ||| p.always
    ||| p.newer && src_mtime is Some && dst_mtime is Some && src_mtime->0 > dst_mtime->0
    ||| p.larger && dst_size is Some && (match policy.winner {
        CollisionWinner::Source => src_size > dst_size->0,
        CollisionWinner::Dest => dst_size->0 > src_size,
    })
    ||| p.size_differs && dst_size is Some && src_size != dst_size->0
}

/// Some condition of the rule cannot be decided for want of a size or a time.
pub open spec fn some_unknown(
    policy: MergeCollisionPolicy,
    src_mtime: Option<i128>,
    dst_size: Option<u64>,
    dst_mtime: Option<i128>,
) -> bool {
    let p = policy.predicates;
    ||| p.newer && (src_mtime is None || dst_mtime is None)
    ||| (p.larger || p.size_differs) && dst_size is None
}

/// Some condition of the rule is known to fail.
pub open spec fn some_fails(
    policy: MergeCollisionPolicy,
    src_size: u64,
    src_mtime: Option<i128>,
    dst_size: Option<u64>,
    dst_mtime: Option<i128>,
) -> bool {
    let p = policy.predicates;
    ||| p.newer && src_mtime is Some && dst_mtime is Some && src_mtime->0 <= dst_mtime->0
    ||| p.larger && dst_size is Some && (match policy.winner {
        CollisionWinner::Source => src_size <= dst_size->0,
        CollisionWinner::Dest => dst_size->0 <= src_size,
    })
    ||| p.size_differs && dst_size is Some && src_size == dst_size->0
}

/// Whether the rule applies. What cannot be decided counts as holding, unless
/// another condition decides.
pub open spec fn rule_applies(
    policy: MergeCollisionPolicy,
    src_size: u64,
    src_mtime: Option<i128>,
    dst_size: Option<u64>,
    dst_mtime: Option<i128>,
) -> bool {
    match policy.combine {
        CollisionCombineMode::Any => {
            some_holds(policy, src_size, src_mtime, dst_size, dst_mtime) || some_unknown(
                policy,
                src_mtime,
                dst_size,
                dst_mtime,
            )
        },
        CollisionCombineMode::All => !some_fails(
            policy,
            src_size,
            src_mtime,
            dst_size,
            dst_mtime,
        ),
    }
}

/// What a merge does to a regular file.
pub open spec fn collision_change(
    policy: MergeCollisionPolicy,
    src_size: u64,
    src_mtime: Option<i128>,
    dst_exists: bool,
    dst_size: Option<u64>,
    dst_mtime: Option<i128>,
) -> Option<ChangeKind> {
    if !dst_exists {
        Some(ChangeKind::NewFile)
    } else if rule_applies(policy, src_size, src_mtime, dst_size, dst_mtime) == (policy.winner
        is Source) {
        Some(ChangeKind::ModFile)
    } else {
        None
    }
}

/// The verdict of one condition: `None` when it cannot be decided.
fn newer_verdict(src_mtime: Option<i128>, dst_mtime: Option<i128>) -> (r: Option<bool>)
    ensures
        r == (if src_mtime is Some && dst_mtime is Some {
            Some(src_mtime->0 > dst_mtime->0)
        } else {
            None
        }),
{
    match (src_mtime, dst_mtime) {
        (Some(src), Some(dst)) => Some(src > dst),
        _ => None,
    }
}

/// Decides what a merge does to a regular file.
pub fn regular_file_collision_change(
    policy: MergeCollisionPolicy,
    src_size: u64,
    src_mtime: Option<i128>,
    dst_exists: bool,
    dst_size: Option<u64>,
    dst_mtime: Option<i128>,
) -> (r: Option<ChangeKind>)
    ensures
        r == collision_change(policy, src_size, src_mtime, dst_exists, dst_size, dst_mtime),
{
    if !dst_exists {
        return Some(ChangeKind::NewFile);
    }
    let mut holds = policy.predicates.always;
    let mut fails = false;
    let mut unknown = false;
    if policy.predicates.newer {
        match newer_verdict(src_mtime, dst_mtime) {
            Some(verdict) => {
                holds = holds || verdict;
                fails = fails || !verdict;
            },
            None => {
                unknown = true;
            },
        }
    }
    if policy.predicates.larger {
        match dst_size {
            Some(dst) => {
                let verdict = match policy.winner {
                    CollisionWinner::Source => src_size > dst,
                    CollisionWinner::Dest => dst > src_size,
                };
                holds = holds || verdict;
                fails = fails || !verdict;
            },
            None => {
                unknown = true;
            },
        }
    }
    if policy.predicates.size_differs {
        match dst_size {
            Some(dst) => {
                holds = holds || src_size != dst;
                fails = fails || src_size == dst;
            },
            None => {
                unknown = true;
            },
        }
    }
    let applies = match policy.combine {
        CollisionCombineMode::Any => holds || unknown,
        CollisionCombineMode::All => !fails,
    };
    let source_favoured = match policy.winner {
        CollisionWinner::Source => true,
        CollisionWinner::Dest => false,
    };
    if applies == source_favoured {
        Some(ChangeKind::ModFile)
    } else {
        None
    }
}

/// What a sync does to a regular file: nothing where size and time agree.
pub open spec fn sync_change(
    src_size: u64,
    src_mtime: Option<i128>,
    dst_is_regular_file: bool,
    dst_size: Option<u64>,
    dst_mtime: Option<i128>,
) -> Option<ChangeKind> {
    if dst_is_regular_file && dst_size == Some(src_size) && src_mtime is Some && dst_mtime
        == src_mtime {
        None
    } else {
        Some(ChangeKind::ModFile)
    }
}

/// Decides what a sync does to a regular file.
pub fn sync_regular_file_change(
    src_size: u64,
    src_mtime: Option<i128>,
    dst_is_regular_file: bool,
    dst_size: Option<u64>,
    dst_mtime: Option<i128>,
) -> (r: Option<ChangeKind>)
    ensures
        r == sync_change(src_size, src_mtime, dst_is_regular_file, dst_size, dst_mtime),
{
    if !dst_is_regular_file {
        return Some(ChangeKind::ModFile);
    }
    let same_size = match dst_size {
        Some(dst) => dst == src_size,
        None => false,
    };
    let same_mtime = match (src_mtime, dst_mtime) {
        (Some(src), Some(dst)) => src == dst,
        _ => false,
    };
    if same_size && same_mtime {
        None
    } else {
        Some(ChangeKind::ModFile)
    }
}

/// The one counter for a file of these sizes and times, where all are known.
pub open spec fn file_relation(
    src_size: u64,
    src_mtime: Option<i128>,
    dst_size: Option<u64>,
    dst_mtime: Option<i128>,
) -> Option<FileRelationBreakdown> {
    if dst_size is None || src_mtime is None || dst_mtime is None {
        None
    } else {
        let larger = src_size > dst_size->0;
        let smaller = src_size < dst_size->0;
        let newer = src_mtime->0 > dst_mtime->0;
        let older = src_mtime->0 < dst_mtime->0;
        let none = crate::domain::empty_breakdown();
        Some(
            if newer {
                if larger {
                    FileRelationBreakdown { source_newer_larger: 1, ..none }
                } else if smaller {
                    FileRelationBreakdown { source_newer_smaller: 1, ..none }
                } else {
                    FileRelationBreakdown { same_size_source_newer: 1, ..none }
                }
            } else if older {
                if larger {
                    FileRelationBreakdown { source_older_larger: 1, ..none }
                } else if smaller {
                    FileRelationBreakdown { source_older_smaller: 1, ..none }
                } else {
                    FileRelationBreakdown { same_size_source_older: 1, ..none }
                }
            } else {
                if larger {
                    FileRelationBreakdown { same_time_source_larger: 1, ..none }
                } else if smaller {
                    FileRelationBreakdown { same_time_source_smaller: 1, ..none }
                } else {
                    FileRelationBreakdown { same_time_same_size: 1, ..none }
                }
            },
        )
    }
}

/// Classifies a file by size and time.
pub fn classify_file_relation(
    src_size: u64,
    src_mtime: Option<i128>,
    dst_size: Option<u64>,
    dst_mtime: Option<i128>,
) -> (r: Option<FileRelationBreakdown>)
    ensures
        r == file_relation(src_size, src_mtime, dst_size, dst_mtime),
{
    match (dst_size, src_mtime, dst_mtime) {
        (Some(dst_size), Some(src_mtime), Some(dst_mtime)) => {
            let mut out = FileRelationBreakdown::default();
            if src_mtime == dst_mtime {
                if src_size == dst_size {
                    out.same_time_same_size = 1;
                } else if src_size > dst_size {
                    out.same_time_source_larger = 1;
                } else {
                    out.same_time_source_smaller = 1;
                }
            } else if src_mtime > dst_mtime {
                if src_size == dst_size {
                    out.same_size_source_newer = 1;
                } else if src_size > dst_size {
                    out.source_newer_larger = 1;
                } else {
                    out.source_newer_smaller = 1;
                }
            } else {
                if src_size == dst_size {
                    out.same_size_source_older = 1;
                } else if src_size > dst_size {
                    out.source_older_larger = 1;
                } else {
                    out.source_older_smaller = 1;
                }
            }
            Some(out)
        },
        _ => None,
    }
}

/// The sum of a breakdown's counters.
pub open spec fn breakdown_total(b: FileRelationBreakdown) -> int {
    b.same_time_same_size + b.same_time_source_larger + b.same_time_source_smaller
        + b.same_size_source_newer + b.same_size_source_older + b.source_older_smaller
        + b.source_older_larger + b.source_newer_smaller + b.source_newer_larger
}

/// A file whose sizes and times are known is counted exactly once.
pub proof fn law_relation_counts_once(
    src_size: u64,
    src_mtime: Option<i128>,
    dst_size: Option<u64>,
    dst_mtime: Option<i128>,
)
    ensures
        file_relation(src_size, src_mtime, dst_size, dst_mtime) matches Some(b)
            ==> breakdown_total(b) == 1,
        file_relation(src_size, src_mtime, dst_size, dst_mtime) is Some <==> dst_size is Some
            && src_mtime is Some && dst_mtime is Some,
{
}

/// The files that a sync leaves alone are those counted as alike in size and
/// time.
pub proof fn law_sync_skips_exactly_identical_files(
    src_size: u64,
    src_mtime: Option<i128>,
    dst_size: Option<u64>,
    dst_mtime: Option<i128>,
)
    ensures
        sync_change(src_size, src_mtime, true, dst_size, dst_mtime) is None <==> (file_relation(
            src_size,
            src_mtime,
            dst_size,
            dst_mtime,
        ) matches Some(b) && b.same_time_same_size == 1),
{
}

/// A file that is missing at the destination is copied under every rule.
pub proof fn law_missing_file_is_new(
    policy: MergeCollisionPolicy,
    src_size: u64,
    src_mtime: Option<i128>,
    dst_size: Option<u64>,
    dst_mtime: Option<i128>,
)
    ensures
        collision_change(policy, src_size, src_mtime, false, dst_size, dst_mtime) == Some(
            ChangeKind::NewFile,
        ),
{
}

/// Under the default rule an existing file is replaced exactly when its size
/// is unknown or differs.
pub proof fn law_default_policy_compares_sizes(
    src_size: u64,
    src_mtime: Option<i128>,
    dst_size: Option<u64>,
    dst_mtime: Option<i128>,
)
    ensures
        collision_change(
            crate::domain::default_policy(),
            src_size,
            src_mtime,
            true,
            dst_size,
            dst_mtime,
        ) == (if dst_size == Some(src_size) {
            None
        } else {
            Some(ChangeKind::ModFile)
        }),
{
}

/// A rule that parses names at least one condition.
pub proof fn law_parsed_policy_has_a_condition(raw: Seq<char>)
    ensures
        policy_of(raw) matches Ok(policy) ==> policy.predicates != no_predicates(),
{
    let colon = text::find_char(raw, ':') as int;
    let rule = raw.skip(colon + 1);
    let tokens = text::split_on(rule, if rule.contains('+') {
        '+'
    } else {
        ','
    });
    text::lemma_split_on_nonempty(rule, '+');
    text::lemma_split_on_nonempty(rule, ',');
    lemma_named_conditions_grow(tokens, 0, no_predicates());
}

proof fn lemma_named_conditions_grow(
    tokens: Seq<Seq<char>>,
    i: int,
    seen: CollisionPredicates,
)
    requires
        0 <= i <= tokens.len(),
    ensures
        named_conditions(tokens, i, seen) matches Ok(p) ==> (i < tokens.len() || seen
            != no_predicates() ==> p != no_predicates()),
    decreases tokens.len() - i,
{
    if i < tokens.len() {
        lemma_named_conditions_grow(tokens, i + 1, CollisionPredicates { always: true, ..seen });
        lemma_named_conditions_grow(tokens, i + 1, CollisionPredicates { newer: true, ..seen });
        lemma_named_conditions_grow(tokens, i + 1, CollisionPredicates { larger: true, ..seen });
        lemma_named_conditions_grow(
            tokens,
            i + 1,
            CollisionPredicates { size_differs: true, ..seen },
        );
    }
}

/// Whether a rule gives an existing file to the side that it favours: the source's is
/// copied over it, or the destination's stays.
pub open spec fn favoured_side_wins(
    policy: MergeCollisionPolicy,
    src_size: u64,
    src_mtime: Option<i128>,
    dst_size: Option<u64>,
    dst_mtime: Option<i128>,
) -> bool {
    collision_change(policy, src_size, src_mtime, true, dst_size, dst_mtime) == (match policy.winner {
        CollisionWinner::Source => Some(ChangeKind::ModFile),
        CollisionWinner::Dest => None,
    })
}

/// A file that exists at the destination is replaced or left alone, and never counted
/// as new.
pub proof fn law_an_existing_file_is_replaced_or_kept(
    policy: MergeCollisionPolicy,
    src_size: u64,
    src_mtime: Option<i128>,
    dst_size: Option<u64>,
    dst_mtime: Option<i128>,
)
    ensures
        ({
            let r = collision_change(policy, src_size, src_mtime, true, dst_size, dst_mtime);
            r is None || r == Some(ChangeKind::ModFile)
        }),
{
}

/// Under `source:larger` an existing file is replaced exactly when the source has more
/// bytes, and under `dest:larger` it is kept exactly when the destination has more.
/// Where the size of the destination is not known, the favoured side wins.
pub proof fn law_larger_compares_sizes(
    policy: MergeCollisionPolicy,
    src_size: u64,
    src_mtime: Option<i128>,
    dst_size: Option<u64>,
    dst_mtime: Option<i128>,
)
    requires
        policy.predicates == (CollisionPredicates {
            always: false,
            newer: false,
            larger: true,
            size_differs: false,
        }),
    ensures
        ({
            let r = collision_change(policy, src_size, src_mtime, true, dst_size, dst_mtime);
            match (policy.winner, dst_size) {
                (CollisionWinner::Source, Some(n)) => r is Some <==> src_size > n,
                (CollisionWinner::Dest, Some(n)) => r is None <==> n > src_size,
                (CollisionWinner::Source, None) => r is Some,
                (CollisionWinner::Dest, None) => r is None,
            }
        }),
{
}

/// Under `newer` the favoured side wins exactly when the source is the newer one, or
/// one of the times is not known.
pub proof fn law_newer_compares_times(
    policy: MergeCollisionPolicy,
    src_size: u64,
    src_mtime: Option<i128>,
    dst_size: Option<u64>,
    dst_mtime: Option<i128>,
)
    requires
        policy.predicates == (CollisionPredicates {
            always: false,
            newer: true,
            larger: false,
            size_differs: false,
        }),
    ensures
        ({
            let r = collision_change(policy, src_size, src_mtime, true, dst_size, dst_mtime);
            match (src_mtime, dst_mtime) {
                (Some(a), Some(b)) => match policy.winner {
                    CollisionWinner::Source => r is Some <==> a > b,
                    CollisionWinner::Dest => r is None <==> a > b,
                },
                _ => r is Some <==> policy.winner == CollisionWinner::Source,
            }
        }),
{
}

/// Under `size-differs` the favoured side wins exactly when the sizes differ, or that
/// of the destination is not known.
pub proof fn law_size_differs_compares_sizes(
    policy: MergeCollisionPolicy,
    src_size: u64,
    src_mtime: Option<i128>,
    dst_size: Option<u64>,
    dst_mtime: Option<i128>,
)
    requires
        policy.predicates == (CollisionPredicates {
            always: false,
            newer: false,
            larger: false,
            size_differs: true,
        }),
    ensures
        ({
            let r = collision_change(policy, src_size, src_mtime, true, dst_size, dst_mtime);
            match policy.winner {
                CollisionWinner::Source => r is Some <==> dst_size != Some(src_size),
                CollisionWinner::Dest => r is None <==> dst_size != Some(src_size),
            }
        }),
{
}

/// Under `always` the favoured side wins, whatever the sizes and times are.
pub proof fn law_always_favours_its_side(
    policy: MergeCollisionPolicy,
    src_size: u64,
    src_mtime: Option<i128>,
    dst_size: Option<u64>,
    dst_mtime: Option<i128>,
)
    requires
        policy.predicates == (CollisionPredicates {
            always: true,
            newer: false,
            larger: false,
            size_differs: false,
        }),
    ensures
        collision_change(policy, src_size, src_mtime, true, dst_size, dst_mtime) is Some
            <==> policy.winner == CollisionWinner::Source,
{
}

/// Conditions that are joined by commas let the favoured side win where one of them
/// does alone, and conditions that are joined by plus signs where all of them do.
pub proof fn law_conditions_combine(
    a: MergeCollisionPolicy,
    b: MergeCollisionPolicy,
    both: MergeCollisionPolicy,
    src_size: u64,
    src_mtime: Option<i128>,
    dst_size: Option<u64>,
    dst_mtime: Option<i128>,
)
    requires
        a.winner == both.winner && b.winner == both.winner,
        a.combine == both.combine && b.combine == both.combine,
        both.predicates.always == (a.predicates.always || b.predicates.always),
        both.predicates.newer == (a.predicates.newer || b.predicates.newer),
        both.predicates.larger == (a.predicates.larger || b.predicates.larger),
        both.predicates.size_differs == (a.predicates.size_differs || b.predicates.size_differs),
    ensures
        ({
            let left = favoured_side_wins(a, src_size, src_mtime, dst_size, dst_mtime);
            let right = favoured_side_wins(b, src_size, src_mtime, dst_size, dst_mtime);
            favoured_side_wins(both, src_size, src_mtime, dst_size, dst_mtime) == (
            match both.combine {
                CollisionCombineMode::Any => left || right,
                CollisionCombineMode::All => left && right,
            })
        }),
{
}

/// A rule of one condition means the same however conditions are joined.
pub proof fn law_one_condition_needs_no_joining(
    any: MergeCollisionPolicy,
    all: MergeCollisionPolicy,
    src_size: u64,
    src_mtime: Option<i128>,
    dst_size: Option<u64>,
    dst_mtime: Option<i128>,
)
    requires
        any.combine == CollisionCombineMode::Any && all.combine == CollisionCombineMode::All,
        any.winner == all.winner,
        any.predicates == all.predicates,
        conditions_set(any.predicates) == 1,
    ensures
        collision_change(any, src_size, src_mtime, true, dst_size, dst_mtime) == collision_change(
            all,
            src_size,
            src_mtime,
            true,
            dst_size,
            dst_mtime,
        ),
{
}

/// How many conditions are set.
pub open spec fn conditions_set(p: CollisionPredicates) -> int {
    (if p.always {
        1int
    } else {
        0
    }) + (if p.newer {
        1int
    } else {
        0
    }) + (if p.larger {
        1int
    } else {
        0
    }) + (if p.size_differs {
        1int
    } else {
        0
    })
}

/// A sync leaves a file alone exactly when a regular file of the same size stands in
/// its place and both times are known and equal; every other one it replaces.
pub proof fn law_sync_compares_size_and_time(
    src_size: u64,
    src_mtime: Option<i128>,
    dst_is_regular_file: bool,
    dst_size: Option<u64>,
    dst_mtime: Option<i128>,
)
    ensures
        ({
            let r = sync_change(src_size, src_mtime, dst_is_regular_file, dst_size, dst_mtime);
            &&& r is None || r == Some(ChangeKind::ModFile)
            &&& r is None ==> dst_is_regular_file && dst_size == Some(src_size)
            &&& r is None ==> src_mtime is Some && dst_mtime is Some && src_mtime->0 == dst_mtime->0
            &&& !dst_is_regular_file ==> r is Some
            &&& (dst_size matches Some(n) && n != src_size) ==> r is Some
            &&& src_mtime != dst_mtime ==> r is Some
            &&& (dst_is_regular_file && dst_size == Some(src_size) && src_mtime is Some && dst_mtime
                == src_mtime) ==> r is None
        }),
{
}

/// The counter of a file tells how its size and its time compare with those of the
/// file in its place.
pub proof fn law_relation_tells_size_and_time(
    src_size: u64,
    src_mtime: i128,
    dst_size: u64,
    dst_mtime: i128,
)
    ensures
        ({
            let b = file_relation(src_size, Some(src_mtime), Some(dst_size), Some(dst_mtime))->0;
            &&& b.source_newer_larger + b.source_newer_smaller + b.same_size_source_newer == 1
                <==> src_mtime > dst_mtime
            &&& b.source_older_larger + b.source_older_smaller + b.same_size_source_older == 1
                <==> src_mtime < dst_mtime
            &&& b.same_time_same_size + b.same_time_source_larger + b.same_time_source_smaller == 1
                <==> src_mtime == dst_mtime
            &&& b.source_newer_larger + b.source_older_larger + b.same_time_source_larger == 1
                <==> src_size > dst_size
            &&& b.source_newer_smaller + b.source_older_smaller + b.same_time_source_smaller == 1
                <==> src_size < dst_size
            &&& b.same_size_source_newer + b.same_size_source_older + b.same_time_same_size == 1
                <==> src_size == dst_size
        }),
{
}

/// The conditions of a rule: what stands behind its colon, cut at plus signs or, where
/// there is none, at commas.
pub open spec fn rule_tokens(raw: Seq<char>, colon: int) -> Seq<Seq<char>> {
    let rule = raw.skip(colon + 1);
    text::split_on(rule, if rule.contains('+') {
        '+'
    } else {
        ','
    })
}

/// Whether one of some conditions, white space around it aside, is a word.
pub open spec fn names_condition(tokens: Seq<Seq<char>>, word: Seq<char>) -> bool {
    exists|i: int| 0 <= i < tokens.len() && text::trimmed(#[trigger] tokens[i]) == word
}

/// A rule that is read says what was written: what stands before its first colon is
/// the side that it favours, plus signs ask for all conditions and commas for one, and
/// a condition is set exactly when it is named.
pub proof fn law_a_rule_says_what_is_written(raw: Seq<char>, colon: int)
    requires
        policy_of(raw) is Ok,
        0 <= colon < raw.len(),
        raw[colon] == ':',
        forall|k: int| 0 <= k < colon ==> raw[k] != ':',
    ensures
        ({
            let p = policy_of(raw)->Ok_0;
            let rule = raw.skip(colon + 1);
            let tokens = text::split_on(rule, if rule.contains('+') {
                '+'
            } else {
                ','
            });
            &&& (p.winner == CollisionWinner::Source <==> raw.take(colon) == "source"@)
            &&& (p.winner == CollisionWinner::Dest <==> raw.take(colon) == "dest"@)
            &&& (p.combine == CollisionCombineMode::All <==> rule.contains('+'))
            &&& !(rule.contains('+') && rule.contains(','))
            &&& p.predicates.always == names_condition(tokens, "always"@)
            &&& p.predicates.newer == names_condition(tokens, "newer"@)
            &&& p.predicates.larger == names_condition(tokens, "larger"@)
            &&& p.predicates.size_differs == names_condition(tokens, "size-differs"@)
        }),
{
    text::lemma_find_char(raw, ':');
    reveal_strlit("source");
    reveal_strlit("dest");
    reveal_strlit("always");
    reveal_strlit("newer");
    reveal_strlit("larger");
    reveal_strlit("size-differs");
    let at = text::find_char(raw, ':') as int;
    assert(at == colon) by {
        if colon < at {
            assert(raw[colon] != ':');
        }
    }
    assert("source"@.len() == 6 && "dest"@.len() == 4);
    lemma_named_conditions(rule_tokens(raw, colon), 0, no_predicates());
}

/// Whether one of some conditions from a place on is a word.
spec fn names_from(tokens: Seq<Seq<char>>, from: int, word: Seq<char>) -> bool {
    exists|i: int| from <= i < tokens.len() && text::trimmed(#[trigger] tokens[i]) == word
}

proof fn lemma_named_conditions(tokens: Seq<Seq<char>>, i: int, seen: CollisionPredicates)
    requires
        0 <= i <= tokens.len(),
    ensures
        named_conditions(tokens, i, seen) matches Ok(p) ==> {
            &&& p.always == (seen.always || names_from(tokens, i, "always"@))
            &&& p.newer == (seen.newer || names_from(tokens, i, "newer"@))
            &&& p.larger == (seen.larger || names_from(tokens, i, "larger"@))
            &&& p.size_differs == (seen.size_differs || names_from(tokens, i, "size-differs"@))
        },
    decreases tokens.len() - i,
{
    reveal_strlit("always");
    reveal_strlit("newer");
    reveal_strlit("larger");
    reveal_strlit("size-differs");
    assert("always"@.len() == 6 && "newer"@.len() == 5 && "larger"@.len() == 6
        && "size-differs"@.len() == 12);
    assert("always"@[0] == 'a' && "larger"@[0] == 'l');
    if i < tokens.len() {
        let token = text::trimmed(tokens[i]);
        let next = if token == "always"@ {
            CollisionPredicates { always: true, ..seen }
        } else if token == "newer"@ {
            CollisionPredicates { newer: true, ..seen }
        } else if token == "larger"@ {
            CollisionPredicates { larger: true, ..seen }
        } else {
            CollisionPredicates { size_differs: true, ..seen }
        };
        lemma_named_conditions(tokens, i + 1, next);
        lemma_names_from(tokens, i, "always"@);
        lemma_names_from(tokens, i, "newer"@);
        lemma_names_from(tokens, i, "larger"@);
        lemma_names_from(tokens, i, "size-differs"@);
    }
}

proof fn lemma_names_from(tokens: Seq<Seq<char>>, i: int, word: Seq<char>)
    requires
        0 <= i < tokens.len(),
    ensures
        names_from(tokens, i, word) == (text::trimmed(tokens[i]) == word || names_from(
            tokens,
            i + 1,
            word,
        )),
{
    if names_from(tokens, i, word) && text::trimmed(tokens[i]) != word {
        let k = choose|k: int| i <= k < tokens.len() && text::trimmed(#[trigger] tokens[k]) == word;
        assert(i + 1 <= k);
    }
    if names_from(tokens, i + 1, word) {
        let k = choose|k: int|
            i + 1 <= k < tokens.len() && text::trimmed(#[trigger] tokens[k]) == word;
        assert(i <= k);
    }
}

/// A rule is refused exactly when it has no colon, favours no known side, is empty,
/// mixes commas and plus signs, or names something that is no condition.
pub proof fn law_only_sound_rules_are_read(raw: Seq<char>)
    ensures
        ({
            let colon = text::find_char(raw, ':') as int;
            let rule = raw.skip(colon + 1);
            policy_of(raw) is Ok <==> {
                &&& raw.contains(':')
                &&& raw.take(colon) == "source"@ || raw.take(colon) == "dest"@
                &&& !(rule.contains('+') && rule.contains(','))
                &&& forall|i: int|
                    0 <= i < rule_tokens(raw, colon).len() ==> is_condition(
                        text::trimmed(#[trigger] rule_tokens(raw, colon)[i]),
                    )
            }
        }),
{
    text::lemma_find_char(raw, ':');
    let colon = text::find_char(raw, ':') as int;
    let rule = raw.skip(colon + 1);
    let tokens = rule_tokens(raw, colon);
    if raw.contains(':') {
        let k = choose|k: int| 0 <= k < raw.len() && raw[k] == ':';
        assert(colon < raw.len());
    } else if colon < raw.len() {
        assert(raw[colon] == ':');
    }
    lemma_all_conditions(tokens, 0, no_predicates());
    reveal_strlit("always");
    reveal_strlit("newer");
    reveal_strlit("larger");
    reveal_strlit("size-differs");
    if rule.len() == 0 {
        assert(text::split_on(rule, ',')[0] == rule);
        assert(text::trimmed(rule).len() == 0);
        assert(!is_condition(text::trimmed(tokens[0])));
    }
}

/// The conditions that there are.
pub open spec fn is_condition(word: Seq<char>) -> bool {
    word == "always"@ || word == "newer"@ || word == "larger"@ || word == "size-differs"@
}

proof fn lemma_all_conditions(tokens: Seq<Seq<char>>, i: int, seen: CollisionPredicates)
    requires
        0 <= i <= tokens.len(),
    ensures
        named_conditions(tokens, i, seen) is Ok <==> forall|k: int|
            i <= k < tokens.len() ==> is_condition(text::trimmed(#[trigger] tokens[k])),
    decreases tokens.len() - i,
{
    reveal_strlit("always");
    reveal_strlit("newer");
    reveal_strlit("larger");
    reveal_strlit("size-differs");
    if i < tokens.len() {
        let token = text::trimmed(tokens[i]);
        lemma_all_conditions(tokens, i + 1, CollisionPredicates { always: true, ..seen });
        lemma_all_conditions(tokens, i + 1, CollisionPredicates { newer: true, ..seen });
        lemma_all_conditions(tokens, i + 1, CollisionPredicates { larger: true, ..seen });
        lemma_all_conditions(tokens, i + 1, CollisionPredicates { size_differs: true, ..seen });
        assert(token == text::trimmed(tokens[i]));
    }
}

/// Only a rule that asks for the newer file reads times.
pub proof fn lemma_times_matter_to_newer(
    policy: MergeCollisionPolicy,
    src_size: u64,
    src_mtime: Option<i128>,
    dst_mtime: Option<i128>,
    other_src: Option<i128>,
    other_dst: Option<i128>,
    dst_size: Option<u64>,
)
    ensures
        !policy.predicates.newer ==> collision_change(
            policy,
            src_size,
            src_mtime,
            true,
            dst_size,
            dst_mtime,
        ) == collision_change(policy, src_size, other_src, true, dst_size, other_dst),
{
}

} // verus!
