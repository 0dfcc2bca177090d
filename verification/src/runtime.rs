//! Tuning of local transfers by the kind of storage.

use crate::domain;
use crate::domain::MediaKind;
use crate::text;
use vstd::prelude::*;

verus! {

/// The difference of two counters where both are known.
pub open spec fn known_difference(a: Option<u64>, b: Option<u64>) -> Option<u64> {
    match (a, b) {
        (Some(x), Some(y)) => Some(domain::sat_sub(x, y)),
        _ => None,
    }
}

/// The difference of two counters where both are known.
pub fn option_u64_saturating_sub(a: Option<u64>, b: Option<u64>) -> (r: Option<u64>)
    ensures
        r == known_difference(a, b),
{
    match (a, b) {
        (Some(x), Some(y)) => Some(x.saturating_sub(y)),
        _ => None,
    }
}

/// The sum of what is known of two counters.
pub open spec fn known_sum(a: Option<u64>, b: Option<u64>) -> Option<u64> {
    match (a, b) {
        (Some(x), Some(y)) => Some(domain::sat_add(x, y)),
        (Some(x), None) => Some(x),
        (None, y) => y,
    }
}

/// Adds what is known of two counters.
pub fn option_u64_saturating_add(a: Option<u64>, b: Option<u64>) -> (r: Option<u64>)
    ensures
        r == known_sum(a, b),
{
    match (a, b) {
        (Some(x), Some(y)) => Some(x.saturating_add(y)),
        (Some(x), None) => Some(x),
        (None, y) => y,
    }
}

/// The kind of storage that sets the pace between two ends.
pub open spec fn pace(source: MediaKind, destination: MediaKind) -> MediaKind {
    if source == MediaKind::Hdd || destination == MediaKind::Hdd {
        MediaKind::Hdd
    } else if source == MediaKind::Nvme && destination == MediaKind::Nvme {
        MediaKind::Nvme
    } else {
        MediaKind::Other
    }
}

/// Finds the kind of storage that sets the pace between two ends.
pub fn transfer_media_kind(source: MediaKind, destination: MediaKind) -> (r: MediaKind)
    ensures
        r == pace(source, destination),
{
    if source == MediaKind::Hdd || destination == MediaKind::Hdd {
        MediaKind::Hdd
    } else if source == MediaKind::Nvme && destination == MediaKind::Nvme {
        MediaKind::Nvme
    } else {
        MediaKind::Other
    }
}

/// Direction and grouping of the ends make no difference.
pub proof fn law_pace_is_symmetric_and_associative(a: MediaKind, b: MediaKind, c: MediaKind)
    ensures
        pace(a, b) == pace(b, a),
        pace(pace(a, b), c) == pace(a, pace(b, c)),
        pace(a, a) == a,
{
}

/// The pace of a destination and many sources.
pub open spec fn batch_pace(destination: MediaKind, sources: Seq<MediaKind>) -> MediaKind
    decreases sources.len(),
{
    if sources.len() == 0 {
        destination
    } else {
        pace(batch_pace(destination, sources.drop_last()), sources.last())
    }
}

/// Finds the pace of a destination and many sources.
pub fn batch_media_kind(destination: MediaKind, sources: &[MediaKind]) -> (r: MediaKind)
    ensures
        r == batch_pace(destination, sources@),
{
    let mut kind = destination;
    let mut i: usize = 0;
    assert(sources@.take(0) == Seq::<MediaKind>::empty());
    while i < sources.len()
        invariant
            i <= sources@.len(),
            kind == batch_pace(destination, sources@.take(i as int)),
        decreases sources@.len() - i,
    {
        assert(sources@.take(i + 1).drop_last() == sources@.take(i as int));
        kind = transfer_media_kind(kind, sources[i]);
        i = i + 1;
    }
    assert(sources@.take(sources@.len() as int) == sources@);
    kind
}

/// One directory on the way up from a block device, and what its queue says of
/// rotation.
#[derive(Debug)]
pub struct BlockAncestor {
    pub name: String,
    pub rotational: Option<String>,
}

/// What a queue's `rotational` file says.
pub open spec fn rotation(raw: Seq<char>) -> Option<bool> {
    let word = text::trimmed(raw);
    if word == "1"@ {
        Some(true)
    } else if word == "0"@ {
        Some(false)
    } else {
        None
    }
}

/// Reads a queue's `rotational` file.
pub fn parse_rotational(raw: &str) -> (r: Option<bool>)
    ensures
        r == rotation(raw@),
{
    let word = text::trim(text::to_chars(raw).as_slice());
    if text::is_text(word.as_slice(), "1") {
        Some(true)
    } else if text::is_text(word.as_slice(), "0") {
        Some(false)
    } else {
        None
    }
}

/// Whether an ancestor settles the question of rotation.
pub open spec fn settles(a: BlockAncestor) -> bool {
    a.rotational is Some && rotation(a.rotational->0@) is Some
}

pub open spec fn is_nvme_name(name: Seq<char>) -> bool {
    text::begins(name, "nvme"@)
}

/// How many ancestors are looked at: up to the first that settles.
pub open spec fn looked_at(all: Seq<BlockAncestor>) -> nat
    decreases all.len(),
{
    if all.len() == 0 {
        0
    } else if settles(all[0]) {
        1
    } else {
        1 + looked_at(all.skip(1))
    }
}

/// The kind of a block device, from the directories above it.
pub open spec fn block_media(all: Seq<BlockAncestor>, path: Seq<char>) -> MediaKind {
    let n = looked_at(all) as int;
    let nvme = exists|i: int| 0 <= i < n && is_nvme_name(#[trigger] all[i].name@);
    if n > 0 && settles(all[n - 1]) {
        if rotation(all[n - 1].rotational->0@) == Some(true) {
            MediaKind::Hdd
        } else if nvme {
            MediaKind::Nvme
        } else {
            MediaKind::Other
        }
    } else if text::find_text(path, "/nvme"@) is Some {
        MediaKind::Nvme
    } else {
        MediaKind::Other
    }
}

proof fn lemma_looked_at(all: Seq<BlockAncestor>, i: int)
    requires
        0 <= i <= all.len(),
        forall|k: int| 0 <= k < i ==> !settles(#[trigger] all[k]),
    ensures
        i < all.len() && settles(all[i]) ==> looked_at(all) == i + 1,
        i == all.len() ==> looked_at(all) == i,
    decreases i,
{
    if i > 0 {
        let rest = all.skip(1);
        assert forall|k: int| 0 <= k < i - 1 implies !settles(#[trigger] rest[k]) by {
            assert(rest[k] == all[k + 1]);
        }
        lemma_looked_at(rest, i - 1);
        assert(!settles(all[0]));
        if i < all.len() {
            assert(rest[i - 1] == all[i]);
        }
    }
}

/// Finds the kind of a block device from the directories above it.
pub fn media_of_block(ancestors: &Vec<BlockAncestor>, path: &str) -> (r: MediaKind)
    ensures
        r == block_media(ancestors@, path@),
{
    let prefix = text::to_chars("nvme");
    let mut nvme = false;
    let mut i: usize = 0;
    while i < ancestors.len()
        invariant
            i <= ancestors@.len(),
            prefix@ == "nvme"@,
            nvme == exists|k: int| 0 <= k < i && is_nvme_name(#[trigger] ancestors@[k].name@),
            forall|k: int| 0 <= k < i ==> !settles(#[trigger] ancestors@[k]),
        decreases ancestors@.len() - i,
    {
        let a = &ancestors[i];
        let ghost before = nvme;
        if text::begins_with(text::to_chars(a.name.as_str()).as_slice(), prefix.as_slice()) {
            assert(is_nvme_name(ancestors@[i as int].name@));
            nvme = true;
        }
        assert(nvme == exists|k: int| 0 <= k < i + 1 && is_nvme_name(#[trigger] ancestors@[k].name@));
        let rotation = match &a.rotational {
            Some(raw) => parse_rotational(raw.as_str()),
            None => None,
        };
        if let Some(rotates) = rotation {
            proof {
                assert(settles(ancestors@[i as int]));
                lemma_looked_at(ancestors@, i as int);
            }
            return if rotates {
                MediaKind::Hdd
            } else if nvme {
                MediaKind::Nvme
            } else {
                MediaKind::Other
            };
        }
        assert(!settles(ancestors@[i as int]));
        i = i + 1;
    }
    proof {
        lemma_looked_at(ancestors@, i as int);
        if i > 0 {
            assert(!settles(ancestors@[i - 1]));
        }
    }
    let found = text::search(text::to_chars(path).as_slice(), text::to_chars("/nvme").as_slice());
    if found.is_some() {
        MediaKind::Nvme
    } else {
        MediaKind::Other
    }
}

/// A setting from the environment: a positive number, or nothing.
pub open spec fn setting_of(raw: Option<Seq<char>>) -> Option<u64> {
    match raw {
        Some(s) => match text::parsed_u64(text::trimmed(s)) {
            Some(n) => if n == 0 {
                None
            } else {
                Some(n)
            },
            None => None,
        },
        None => None,
    }
}

/// Reads a setting from the environment.
pub fn parse_setting(raw: Option<&str>) -> (r: Option<u64>)
    ensures
        r == setting_of(
            match raw {
                Some(s) => Some(s@),
                None => None,
            },
        ),
{
    match raw {
        Some(s) => match text::parse_u64(text::trim(text::to_chars(s).as_slice()).as_slice()) {
            Some(n) => if n == 0 {
                None
            } else {
                Some(n)
            },
            None => None,
        },
        None => None,
    }
}

/// `n`, kept between two bounds.
pub open spec fn clamped(n: u64, low: u64, high: u64) -> u64 {
    if n < low {
        low
    } else if n > high {
        high
    } else {
        n
    }
}

fn clamp(n: u64, low: u64, high: u64) -> (r: u64)
    ensures
        r == clamped(n, low, high),
{
    if n < low {
        low
    } else if n > high {
        high
    } else {
        n
    }
}

/// How many threads a transfer uses, of those wanted and those there are.
pub open spec fn threads_of(media: MediaKind, wanted: Option<u64>, logical: u64) -> u64 {
    match (wanted, media) {
        (Some(n), MediaKind::Hdd) => clamped(n, 1, 2),
        (Some(n), MediaKind::Nvme) => clamped(n, 2, 32),
        (Some(n), MediaKind::Other) => clamped(n, 1, 8),
        (None, MediaKind::Hdd) => 2,
        (None, MediaKind::Nvme) => clamped(logical, 2, 32),
        (None, MediaKind::Other) => clamped(logical, 1, 8),
    }
}

/// Chooses how many threads a transfer uses.
pub fn preferred_thread_count(media: MediaKind, wanted: Option<u64>, logical: u64) -> (r: u64)
    ensures
        r == threads_of(media, wanted, logical),
{
    match (wanted, media) {
        (Some(n), MediaKind::Hdd) => clamp(n, 1, 2),
        (Some(n), MediaKind::Nvme) => clamp(n, 2, 32),
        (Some(n), MediaKind::Other) => clamp(n, 1, 8),
        (None, MediaKind::Hdd) => 2,
        (None, MediaKind::Nvme) => clamp(logical, 2, 32),
        (None, MediaKind::Other) => clamp(logical, 1, 8),
    }
}

/// A product that stops at the largest 64-bit number.
pub open spec fn sat_mul(a: u64, b: u64) -> u64 {
    if a * b > u64::MAX {
        u64::MAX
    } else {
        (a * b) as u64
    }
}

/// How many bytes are copied at a time, for a setting in kibibytes.
pub open spec fn chunk_of(media: MediaKind, kib: Option<u64>) -> u64 {
    match kib {
        Some(n) => if sat_mul(n, 1024) < 0x1_0000 {
            0x1_0000
        } else {
            sat_mul(n, 1024)
        },
        None => match media {
            MediaKind::Hdd => 0x40_0000,
            MediaKind::Nvme => 0x20_0000,
            MediaKind::Other => 0x10_0000,
        },
    }
}

fn times(a: u64, b: u64) -> (r: u64)
    requires
        b > 0,
    ensures
        r == sat_mul(a, b),
{
    match a.checked_mul(b) {
        Some(n) => n,
        None => u64::MAX,
    }
}

/// Chooses how many bytes are copied at a time.
pub fn copy_chunk_bytes_for_media(media: MediaKind, kib: Option<u64>) -> (r: u64)
    ensures
        r == chunk_of(media, kib),
{
    match kib {
        Some(n) => {
            let bytes: u64 = times(n, 1024);
            if bytes < 64 * 1024 {
                64 * 1024
            } else {
                bytes
            }
        },
        None => match media {
            MediaKind::Hdd => 4 * 1024 * 1024,
            MediaKind::Nvme => 2 * 1024 * 1024,
            MediaKind::Other => 1024 * 1024,
        },
    }
}

/// How many bytes of one file are copied at a time.
pub open spec fn file_chunk_of(media: MediaKind, kib: Option<u64>, file_size: u64) -> u64 {
    if file_size <= 0x1_0000 {
        0x1_0000
    } else if file_size <= 0x40_0000 {
        0x4_0000
    } else {
        chunk_of(media, kib)
    }
}

/// Chooses how many bytes of one file are copied at a time.
pub fn copy_chunk_bytes_for_file(media: MediaKind, kib: Option<u64>, file_size: u64) -> (r: u64)
    ensures
        r == file_chunk_of(media, kib, file_size),
{
    if file_size <= 64 * 1024 {
        64 * 1024
    } else if file_size <= 4 * 1024 * 1024 {
        256 * 1024
    } else {
        copy_chunk_bytes_for_media(media, kib)
    }
}

/// How many bytes may be written at one time, if that is bounded.
pub open spec fn inflight_limit_of(media: MediaKind, mib: Option<u64>) -> Option<u64> {
    match (mib, media) {
        (Some(n), _) => Some(sat_mul(n, 0x10_0000)),
        (None, MediaKind::Hdd) => Some(0x600_0000u64),
        (None, _) => None,
    }
}

/// Chooses how many bytes may be written at one time, if that is bounded, for
/// a setting in mebibytes.
pub fn inflight_max_bytes_for_media(media: MediaKind, mib: Option<u64>) -> (r: Option<u64>)
    ensures
        r == inflight_limit_of(media, mib),
{
    match (mib, media) {
        (Some(n), _) => Some(times(n, 1024 * 1024)),
        (None, MediaKind::Hdd) => Some(96 * 1024 * 1024),
        (None, _) => None,
    }
}

/// How many bytes one file reserves.
pub open spec fn reserve_of(file_size: u64, media: MediaKind) -> u64 {
    match media {
        MediaKind::Hdd => clamped(file_size, 0x40_0000, 0x200_0000),
        _ => clamped(file_size, 0x10_0000, u64::MAX),
    }
}

/// Chooses how many bytes one file reserves.
pub fn inflight_reserve_bytes_for_file(file_size: u64, media: MediaKind) -> (r: u64)
    ensures
        r == reserve_of(file_size, media),
{
    match media {
        MediaKind::Hdd => clamp(file_size, 4 * 1024 * 1024, 32 * 1024 * 1024),
        _ => if file_size < 1024 * 1024 {
            1024 * 1024
        } else {
            file_size
        },
    }
}

/// Byte `i` of a number, the lowest first.
pub open spec fn byte_at(value: u64, i: int) -> u64 {
    (value >> ((8 * i) as u64)) & 0xff
}

/// One step of the hash: the byte is mixed in, then multiplied up.
pub open spec fn hash_step(key: u64, byte: u64) -> u64 {
    (((key ^ byte) as int * 0x1000_0000_01b3) % 0x1_0000_0000_0000_0000) as u64
}

/// The hash of the lowest `n` bytes of a number, going on from `key`.
pub open spec fn hash_bytes(key: u64, value: u64, n: int) -> u64
    decreases n,
{
    if n <= 0 {
        key
    } else {
        hash_step(hash_bytes(key, value, n - 1), byte_at(value, n - 1))
    }
}

fn hash_number(key: u64, value: u64) -> (r: u64)
    ensures
        r == hash_bytes(key, value, 8),
{
    let mut key: u64 = key;
    let mut i: u64 = 0;
    let ghost start = key;
    while i < 8
        invariant
            i <= 8,
            key == hash_bytes(start, value, i as int),
        decreases 8 - i,
    {
        let byte: u64 = (value >> (8 * i)) & 0xff;
        let mixed: u64 = key ^ byte;
        let wide: u128 = mixed as u128 * 0x1000_0000_01b3u128;
        let low: u128 = wide % 0x1_0000_0000_0000_0000u128;
        key = low as u64;
        i = i + 1;
    }
    key
}

/// The key of a pair of devices.
pub open spec fn profile_key(source: u64, destination: u64) -> u64 {
    hash_bytes(hash_bytes(0xcbf2_9ce4_8422_2325, source, 8), destination, 8)
}

/// The key of a pair of devices; an unknown device counts as zero. It tells
/// storage topologies apart without holding a path.
pub fn transfer_profile_key(source: Option<u64>, destination: Option<u64>) -> (r: u64)
    ensures
        r == profile_key(
            match source {
                Some(d) => d,
                None => 0,
            },
            match destination {
                Some(d) => d,
                None => 0,
            },
        ),
{
    let from: u64 = match source {
        Some(d) => d,
        None => 0,
    };
    let to: u64 = match destination {
        Some(d) => d,
        None => 0,
    };
    let key: u64 = hash_number(0xcbf2_9ce4_8422_2325, from);
    hash_number(key, to)
}

/// The difference of two counters is known where both are, and never below zero; their sum
/// is what is known of them.
pub proof fn law_known_counters(a: u64, b: u64)
    ensures
        a >= b ==> known_difference(Some(a), Some(b)) == Some((a - b) as u64),
        a < b ==> known_difference(Some(a), Some(b)) == Some(0u64),
        known_difference(None, Some(b)) is None,
        known_difference(Some(a), None) is None,
        a + b <= u64::MAX ==> known_sum(Some(a), Some(b)) == Some((a + b) as u64),
        known_sum(Some(a), None) == Some(a),
        known_sum(None, Some(b)) == Some(b),
        known_sum(None, None) is None,
{
}

/// One rotating disk sets the pace of all, and only two NVMe ends make an NVMe pace.
pub proof fn law_the_slowest_sets_the_pace(destination: MediaKind, sources: Seq<MediaKind>)
    ensures
        batch_pace(destination, sources) == MediaKind::Hdd <==> destination == MediaKind::Hdd
            || sources.contains(MediaKind::Hdd),
        batch_pace(destination, sources) == MediaKind::Nvme <==> destination == MediaKind::Nvme
            && forall|i: int| 0 <= i < sources.len() ==> #[trigger] sources[i] == MediaKind::Nvme,
    decreases sources.len(),
{
    if sources.len() > 0 {
        let front = sources.drop_last();
        law_the_slowest_sets_the_pace(destination, front);
        if front.contains(MediaKind::Hdd) {
            let i = choose|i: int| 0 <= i < front.len() && front[i] == MediaKind::Hdd;
            assert(sources[i] == MediaKind::Hdd);
        }
        if sources.contains(MediaKind::Hdd) && sources.last() != MediaKind::Hdd {
            let i = choose|i: int| 0 <= i < sources.len() && sources[i] == MediaKind::Hdd;
            assert(front[i] == MediaKind::Hdd);
        }
        if sources.last() == MediaKind::Hdd {
            assert(sources[sources.len() - 1] == MediaKind::Hdd);
        }
        if forall|i: int| 0 <= i < front.len() ==> #[trigger] front[i] == MediaKind::Nvme {
            if sources.last() == MediaKind::Nvme {
                assert forall|i: int| 0 <= i < sources.len() implies #[trigger] sources[i]
                    == MediaKind::Nvme by {
                    if i < front.len() {
                        assert(front[i] == sources[i]);
                    }
                }
            } else {
                assert(sources[sources.len() - 1] != MediaKind::Nvme);
            }
        } else {
            let i = choose|i: int| 0 <= i < front.len() && #[trigger] front[i] != MediaKind::Nvme;
            assert(sources[i] != MediaKind::Nvme);
        }
    }
}

/// A device whose own queue rotates is a disk, whatever it is called; one whose queue does
/// not is an NVMe device by its name alone.
pub proof fn law_rotation_tells_disks(all: Seq<BlockAncestor>, path: Seq<char>)
    requires
        all.len() > 0,
        all[0].rotational is Some,
    ensures
        text::trimmed(all[0].rotational->0@) == "1"@ ==> block_media(all, path) == MediaKind::Hdd,
        text::trimmed(all[0].rotational->0@) == "0"@ ==> block_media(all, path) == (
        if text::begins(all[0].name@, "nvme"@) {
            MediaKind::Nvme
        } else {
            MediaKind::Other
        }),
{
    reveal_strlit("0");
    reveal_strlit("1");
    assert("0"@[0] != "1"@[0]);
    assert("0"@ != "1"@);
    if settles(all[0]) {
        assert(looked_at(all) == 1);
        if text::begins(all[0].name@, "nvme"@) {
            assert(is_nvme_name(all[0].name@));
        }
    }
}

/// A setting counts only where it is a positive number.
pub proof fn law_settings_are_positive(raw: Seq<char>)
    ensures
        setting_of(None) is None,
        setting_of(Some(raw)) matches Some(n) ==> n > 0 && text::parsed_u64(text::trimmed(raw))
            == Some(n),
        text::parsed_u64(text::trimmed(raw)) == Some(0u64) ==> setting_of(Some(raw)) is None,
{
}

/// The number of threads stays between the bounds of the storage, whatever is wanted: one or
/// two for a disk, two to 32 for NVMe, one to eight for anything else.
pub proof fn law_threads_stay_in_bounds(media: MediaKind, wanted: Option<u64>, logical: u64)
    ensures
        ({
            let n = threads_of(media, wanted, logical);
            &&& media == MediaKind::Hdd ==> 1 <= n <= 2
            &&& media == MediaKind::Nvme ==> 2 <= n <= 32
            &&& media == MediaKind::Other ==> 1 <= n <= 8
            &&& media == MediaKind::Nvme && wanted is Some && 2 <= wanted->0 <= 32 ==> n
                == wanted->0
            &&& media == MediaKind::Other && wanted is Some && 1 <= wanted->0 <= 8 ==> n == wanted->0
            &&& media == MediaKind::Hdd && wanted is Some && 1 <= wanted->0 <= 2 ==> n == wanted->0
            &&& media == MediaKind::Hdd && wanted is None ==> n == 2
            &&& media == MediaKind::Nvme && wanted is None && 2 <= logical <= 32 ==> n == logical
            &&& media == MediaKind::Other && wanted is None && 1 <= logical <= 8 ==> n == logical
        }),
{
}

/// A chunk has as many kibibytes as are set, but 64 at least; without a setting four
/// mebibytes for a disk, two for NVMe, and one for anything else. Small files are copied in
/// small chunks.
pub proof fn law_chunks_by_setting_and_storage(media: MediaKind, kib: u64, size: u64)
    ensures
        64 <= kib && kib * 1024 <= u64::MAX ==> chunk_of(media, Some(kib)) == kib * 1024,
        kib < 64 ==> chunk_of(media, Some(kib)) == 64 * 1024,
        chunk_of(MediaKind::Hdd, None) == 4 * 1024 * 1024,
        chunk_of(MediaKind::Nvme, None) == 2 * 1024 * 1024,
        chunk_of(MediaKind::Other, None) == 1024 * 1024,
        size <= 64 * 1024 ==> file_chunk_of(media, Some(kib), size) == 64 * 1024,
        64 * 1024 < size <= 4 * 1024 * 1024 ==> file_chunk_of(media, Some(kib), size) == 256 * 1024,
        size > 4 * 1024 * 1024 ==> file_chunk_of(media, Some(kib), size) == chunk_of(
            media,
            Some(kib),
        ),
{
}

/// What may be written at one time is bounded by a setting, and without one for disks alone;
/// a file reserves its size within the bounds of the storage.
pub proof fn law_writes_in_flight_are_bounded(media: MediaKind, mib: u64, size: u64)
    ensures
        mib * 1024 * 1024 <= u64::MAX ==> inflight_limit_of(media, Some(mib)) == Some(
            (mib * 1024 * 1024) as u64,
        ),
        inflight_limit_of(media, None) is Some <==> media == MediaKind::Hdd,
        inflight_limit_of(MediaKind::Hdd, None) == Some(0x600_0000u64),
        4 * 1024 * 1024 <= reserve_of(size, MediaKind::Hdd) <= 32 * 1024 * 1024,
        4 * 1024 * 1024 <= size <= 32 * 1024 * 1024 ==> reserve_of(size, MediaKind::Hdd) == size,
        media != MediaKind::Hdd && size >= 1024 * 1024 ==> reserve_of(size, media) == size,
        media != MediaKind::Hdd && size < 1024 * 1024 ==> reserve_of(size, media) == 1024 * 1024,
{
}

} // verus!
