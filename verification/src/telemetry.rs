//! What the kernel tells of processes, devices and mounts.

use crate::domain;
use crate::paths;
use crate::runtime;
use crate::text;
use vstd::prelude::*;

verus! {

/// A device number as a pair of major and minor.
pub type DeviceKey = (u64, u64);

/// The major number in a device number.
pub open spec fn major_of(dev: u64) -> u64 {
    ((dev >> 32u64) & 0xffff_f000u64) | ((dev >> 8u64) & 0x0fffu64)
}

/// The minor number in a device number.
pub open spec fn minor_of(dev: u64) -> u64 {
    ((dev >> 12u64) & 0xffff_ff00u64) | (dev & 0x00ffu64)
}

/// `nix::sys::stat::major` takes the major number out of a device number.
#[verifier::external_body]
fn device_major(dev: u64) -> (r: u64)
    ensures
        r == major_of(dev),
{
    nix::sys::stat::major(dev)
}

/// `nix::sys::stat::minor` takes the minor number out of a device number.
#[verifier::external_body]
fn device_minor(dev: u64) -> (r: u64)
    ensures
        r == minor_of(dev),
{
    nix::sys::stat::minor(dev)
}

/// Takes a device number apart.
pub fn device_key(dev: u64) -> (r: DeviceKey)
    ensures
        r == (major_of(dev), minor_of(dev)),
{
    (device_major(dev), device_minor(dev))
}

/// The key of a block device; zero is no device.
pub open spec fn block_device_key(rdev: u64) -> Option<DeviceKey> {
    if rdev == 0 {
        None
    } else {
        Some((major_of(rdev), minor_of(rdev)))
    }
}

/// Takes the device number of a block device apart; zero is no device.
pub fn device_key_for_block_device(rdev: u64) -> (r: Option<DeviceKey>)
    ensures
        r == block_device_key(rdev),
{
    if rdev == 0 {
        None
    } else {
        Some(device_key(rdev))
    }
}

/// The number in column `i`.
pub open spec fn column_number(columns: Seq<Seq<char>>, i: int) -> Option<u64> {
    if 0 <= i < columns.len() {
        text::parsed_u64(columns[i])
    } else {
        None
    }
}

fn number_at(columns: &Vec<Vec<char>>, i: usize) -> (r: Option<u64>)
    ensures
        r == column_number(text::rows(columns@), i as int),
{
    assert(text::rows(columns@).len() == columns@.len());
    if i < columns.len() {
        assert(text::rows(columns@)[i as int] == columns@[i as int]@);
        text::parse_u64(columns[i].as_slice())
    } else {
        None
    }
}

/// What a line of `/proc/diskstats` says.
pub struct DiskLine {
    pub key: DeviceKey,
    pub sectors_read: u64,
    pub sectors_written: u64,
}

/// A line of `/proc/diskstats`, if its numbers can be read.
pub open spec fn disk_line(line: Seq<char>) -> Option<DiskLine> {
    let columns = text::words(line);
    match (
        column_number(columns, 0),
        column_number(columns, 1),
        column_number(columns, 5),
        column_number(columns, 9),
    ) {
        (Some(major), Some(minor), Some(read), Some(written)) => Some(
            DiskLine { key: (major, minor), sectors_read: read, sectors_written: written },
        ),
        _ => None,
    }
}

/// A total of bytes with the sectors of one more device.
pub open spec fn add_sectors(total: Option<u64>, sectors: u64) -> Option<u64> {
    let so_far = match total {
        Some(n) => n,
        None => 0,
    };
    Some(domain::sat_add(so_far, runtime::sat_mul(sectors, 512)))
}

/// The bytes read from the source devices and written to the destination
/// devices, as far as the lines list them.
pub open spec fn disk_bytes(lines: Seq<Seq<char>>, src: Seq<DeviceKey>, dst: Seq<DeviceKey>) -> (
    Option<u64>,
    Option<u64>,
)
    decreases lines.len(),
{
    if lines.len() == 0 {
        (None, None)
    } else {
        let before = disk_bytes(lines.drop_last(), src, dst);
        match disk_line(lines.last()) {
            Some(d) => (
                if src.contains(d.key) {
                    add_sectors(before.0, d.sectors_read)
                } else {
                    before.0
                },
                if dst.contains(d.key) {
                    add_sectors(before.1, d.sectors_written)
                } else {
                    before.1
                },
            ),
            None => before,
        }
    }
}

fn has_key(keys: &[DeviceKey], key: DeviceKey) -> (r: bool)
    ensures
        r == keys@.contains(key),
{
    let mut i: usize = 0;
    while i < keys.len()
        invariant
            i <= keys@.len(),
            forall|k: int| 0 <= k < i ==> keys@[k] != key,
        decreases keys@.len() - i,
    {
        if keys[i].0 == key.0 && keys[i].1 == key.1 {
            assert(keys@[i as int] == key);
            return true;
        }
        i = i + 1;
    }
    false
}

fn bytes_with(total: Option<u64>, sectors: u64) -> (r: Option<u64>)
    ensures
        r == add_sectors(total, sectors),
{
    let so_far: u64 = match total {
        Some(n) => n,
        None => 0,
    };
    let bytes: u64 = match sectors.checked_mul(512) {
        Some(n) => n,
        None => u64::MAX,
    };
    Some(so_far.saturating_add(bytes))
}

/// Sums up `/proc/diskstats` for the devices of both ends.
pub fn diskstats_bytes_for_keys(raw: &str, src_keys: &[DeviceKey], dst_keys: &[DeviceKey]) -> (r: (
    Option<u64>,
    Option<u64>,
))
    ensures
        r == disk_bytes(text::lines_of(raw@), src_keys@, dst_keys@),
{
    let lines = text::lines(text::to_chars(raw).as_slice());
    let ghost all = text::rows(lines@);
    let mut read: Option<u64> = None;
    let mut written: Option<u64> = None;
    let mut i: usize = 0;
    assert(all.take(0) == Seq::<Seq<char>>::empty());
    while i < lines.len()
        invariant
            i <= lines@.len(),
            all == text::rows(lines@),
            (read, written) == disk_bytes(all.take(i as int), src_keys@, dst_keys@),
        decreases lines@.len() - i,
    {
        assert(all.take(i + 1).drop_last() == all.take(i as int));
        assert(all.take(i + 1).last() == lines@[i as int]@);
        let columns = text::split_words(lines[i].as_slice());
        if let (Some(major), Some(minor), Some(sectors_read), Some(sectors_written)) = (
            number_at(&columns, 0),
            number_at(&columns, 1),
            number_at(&columns, 5),
            number_at(&columns, 9),
        ) {
            let key = (major, minor);
            if has_key(src_keys, key) {
                read = bytes_with(read, sectors_read);
            }
            if has_key(dst_keys, key) {
                written = bytes_with(written, sectors_written);
            }
        }
        i = i + 1;
    }
    assert(all.take(all.len() as int) == all);
    (read, written)
}

pub open spec fn is_octal(b: u8) -> bool {
    '0' as int <= b as int <= '7' as int
}

/// Whether a backslash and three octal digits that make a byte stand at `i`.
pub open spec fn is_escape(s: Seq<u8>, i: int) -> bool {
    &&& 0 <= i
    &&& i + 3 < s.len()
    &&& s[i] == 92
    &&& is_octal(s[i + 1])
    &&& is_octal(s[i + 2])
    &&& is_octal(s[i + 3])
    &&& s[i + 1] <= 51
}

/// The byte that an escape stands for.
pub open spec fn escaped_byte(s: Seq<u8>, i: int) -> u8 {
    ((s[i + 1] - 48) * 64 + (s[i + 2] - 48) * 8 + (s[i + 3] - 48)) as u8
}

/// A field of `/proc/self/mountinfo` from `i` on, with its escapes resolved.
pub open spec fn unescaped_from(s: Seq<u8>, i: int) -> Seq<u8>
    decreases s.len() - i,
{
    if i < 0 || i >= s.len() {
        Seq::empty()
    } else if is_escape(s, i) {
        seq![escaped_byte(s, i)] + unescaped_from(s, i + 4)
    } else {
        seq![s[i]] + unescaped_from(s, i + 1)
    }
}

fn octal_digit(b: u8) -> (r: bool)
    ensures
        r == is_octal(b),
{
    48 <= b && b <= 55
}

/// Resolves the escapes of a field of `/proc/self/mountinfo`.
pub fn unescape_bytes(s: &[u8]) -> (r: Vec<u8>)
    ensures
        r@ == unescaped_from(s@, 0),
{
    let mut out: Vec<u8> = Vec::new();
    let mut i: usize = 0;
    while i < s.len()
        invariant
            i <= s@.len(),
            out@ + unescaped_from(s@, i as int) == unescaped_from(s@, 0),
        decreases s@.len() - i,
    {
        let ghost before = out@;
        if s[i] == 92 && s.len() - i > 3 && octal_digit(s[i + 1]) && octal_digit(s[i + 2])
            && octal_digit(s[i + 3]) && s[i + 1] <= 51 {
            let b: u8 = (s[i + 1] - 48) * 64 + (s[i + 2] - 48) * 8 + (s[i + 3] - 48);
            out.push(b);
            assert(out@ + unescaped_from(s@, i + 4) == before + (seq![b] + unescaped_from(
                s@,
                i + 4,
            )));
            i = i + 4;
        } else {
            out.push(s[i]);
            assert(out@ + unescaped_from(s@, i + 1) == before + (seq![s@[i as int]]
                + unescaped_from(s@, i + 1)));
            i = i + 1;
        }
    }
    assert(out@ + Seq::<u8>::empty() == out@);
    out
}

/// A field without a backslash stays as it is.
pub proof fn law_plain_fields_are_kept(s: Seq<u8>, i: int)
    requires
        0 <= i <= s.len(),
        forall|k: int| 0 <= k < s.len() ==> s[k] != 92,
    ensures
        unescaped_from(s, i) == s.skip(i),
    decreases s.len() - i,
{
    if i < s.len() {
        law_plain_fields_are_kept(s, i + 1);
        assert(seq![s[i]] + s.skip(i + 1) == s.skip(i));
    } else {
        assert(s.skip(i) == Seq::<u8>::empty());
    }
}

/// What bytes say as UTF-8 text, with a mark for what is none.
pub uninterp spec fn lossy_text(bytes: Seq<u8>) -> Seq<char>;

/// `String::from_utf8_lossy` reads bytes as UTF-8; bytes that are UTF-8 are
/// read as they are.
#[verifier::external_body]
pub(crate) fn from_utf8_lossy(bytes: &[u8]) -> (r: String)
    ensures
        r@ == lossy_text(bytes@),
        vstd::utf8::valid_utf8(bytes@) ==> vstd::utf8::encode_utf8(r@) == bytes@,
{
    String::from_utf8_lossy(bytes).into_owned()
}

/// A field of `/proc/self/mountinfo` as text.
pub open spec fn unescaped(field: Seq<char>) -> Seq<char> {
    lossy_text(unescaped_from(vstd::utf8::encode_utf8(field), 0))
}

/// Reads a field of `/proc/self/mountinfo`.
pub fn unescape_mountinfo_field(raw: &str) -> (r: String)
    ensures
        r@ == unescaped(raw@),
{
    from_utf8_lossy(unescape_bytes(raw.as_bytes()).as_slice())
}

/// The columns of a line of `/proc/self/mountinfo` before and behind its
/// separator.
pub open spec fn mount_columns(line: Seq<char>) -> Option<(Seq<Seq<char>>, Seq<Seq<char>>)> {
    match text::find_text(line, " - "@) {
        Some(i) => Some(
            (text::words(line.take(i as int)), text::words(line.skip(i as int + 3))),
        ),
        None => None,
    }
}

/// A mount that holds a path: how deep it lies, and its device.
pub open spec fn mount_match(
    columns: (Seq<Seq<char>>, Seq<Seq<char>>),
    path: Seq<char>,
) -> Option<(nat, Seq<char>)> {
    if columns.0.len() < 5 || columns.1.len() < 2 {
        None
    } else {
        let point = unescaped(columns.0[4]);
        let device = unescaped(columns.1[1]);
        if paths::under(path, point) && text::begins(device, "/dev/"@) {
            Some((paths::comps(point).len(), device))
        } else {
            None
        }
    }
}

/// The deepest mount that holds a path, the first of several as deep; none at
/// all if a line cannot be read.
pub open spec fn mount_of(lines: Seq<Seq<char>>, path: Seq<char>) -> Option<
    Option<(nat, Seq<char>)>,
>
    decreases lines.len(),
{
    if lines.len() == 0 {
        Some(None)
    } else {
        match (mount_of(lines.drop_last(), path), mount_columns(lines.last())) {
            (Some(best), Some(columns)) => match mount_match(columns, path) {
                Some(m) => if best is Some && (best->0).0 >= m.0 {
                    Some(best)
                } else {
                    Some(Some(m))
                },
                None => Some(best),
            },
            _ => None,
        }
    }
}

/// The device that the deepest mount of a path is of.
pub open spec fn mount_device(raw: Seq<char>, path: Seq<char>) -> Option<Seq<char>> {
    match mount_of(text::lines_of(raw), path) {
        Some(Some(m)) => Some(m.1),
        _ => None,
    }
}

/// The mount of one line, where it holds a path.
pub open spec fn line_match(line: Seq<char>, path: Seq<char>) -> Option<(nat, Seq<char>)> {
    match mount_columns(line) {
        Some(columns) => mount_match(columns, path),
        None => None,
    }
}

/// The mount that counts for a path is one of those that hold it, and none of
/// them lies deeper.
pub proof fn law_mount_is_the_deepest(lines: Seq<Seq<char>>, path: Seq<char>)
    requires
        mount_of(lines, path) is Some,
    ensures
        mount_of(lines, path)->0 matches Some(best) ==> exists|i: int|
            0 <= i < lines.len() && #[trigger] line_match(lines[i], path) == Some(best),
        forall|i: int|
            0 <= i < lines.len() && (#[trigger] line_match(lines[i], path) is Some) ==> (mount_of(
                lines,
                path,
            )->0 matches Some(best) && best.0 >= (line_match(lines[i], path)->0).0),
    decreases lines.len(),
{
    if lines.len() > 0 {
        let before = lines.drop_last();
        law_mount_is_the_deepest(before, path);
        let now = mount_of(lines, path)->0;
        if let Some(best) = now {
            if mount_of(before, path) == Some(now) {
                let i = choose|i: int|
                    0 <= i < before.len() && #[trigger] line_match(before[i], path) == Some(best);
                assert(lines[i] == before[i]);
            } else {
                assert(line_match(lines[lines.len() - 1], path) == Some(best));
            }
        }
        assert forall|i: int|
            0 <= i < lines.len() && (#[trigger] line_match(lines[i], path) is Some) implies (
        mount_of(lines, path)->0 matches Some(best) && best.0 >= (line_match(
            lines[i],
            path,
        )->0).0) by {
            if i < before.len() {
                assert(lines[i] == before[i]);
                assert(line_match(before[i], path) is Some);
            }
        }
    }
}

proof fn lemma_mount_stays_unread(lines: Seq<Seq<char>>, path: Seq<char>, n: int)
    requires
        0 <= n <= lines.len(),
        mount_of(lines.take(n), path) is None,
    ensures
        mount_of(lines, path) is None,
    decreases lines.len() - n,
{
    if n < lines.len() {
        assert(lines.take(n + 1).drop_last() == lines.take(n));
        lemma_mount_stays_unread(lines, path, n + 1);
    } else {
        assert(lines.take(n) == lines);
    }
}

/// Finds the device that holds a resolved path.
pub fn mount_source_device(raw: &str, path: &str) -> (r: Option<String>)
    ensures
        paths::opt_text(r) == mount_device(raw@, path@),
{
    let lines = text::lines(text::to_chars(raw).as_slice());
    let separator = text::to_chars(" - ");
    let prefix = text::to_chars("/dev/");
    let ghost all = text::rows(lines@);
    let mut best: Option<(usize, String)> = None;
    let mut i: usize = 0;
    proof {
        reveal_strlit(" - ");
    }
    assert(all.take(0) == Seq::<Seq<char>>::empty());
    while i < lines.len()
        invariant
            i <= lines@.len(),
            all == text::rows(lines@),
            all == text::lines_of(raw@),
            separator@ == " - "@,
            separator@.len() == 3,
            prefix@ == "/dev/"@,
            mount_of(all.take(i as int), path@) == Some(
                match best {
                    Some(b) => Some((b.0 as nat, b.1@)),
                    None => None,
                },
            ),
        decreases lines@.len() - i,
    {
        let ghost step = all.take(i + 1);
        assert(step.drop_last() == all.take(i as int));
        assert(step.last() == lines@[i as int]@);
        let line = &lines[i];
        match text::search(line.as_slice(), separator.as_slice()) {
            None => {
                proof {
                    assert(mount_of(step, path@) is None);
                    lemma_mount_stays_unread(all, path@, i + 1);
                }
                return None;
            },
            Some(at) => {
                let end: usize = line.len();
                let left = text::part(line.as_slice(), 0, at);
                let right = text::part(line.as_slice(), at + 3, end);
                assert(left@ == line@.take(at as int));
                assert(right@ == line@.skip(at as int + 3));
                let left_cols = text::split_words(left.as_slice());
                let right_cols = text::split_words(right.as_slice());
                let ghost columns = (text::words(left@), text::words(right@));
                assert(mount_columns(step.last()) == Some(columns));
                if left_cols.len() >= 5 && right_cols.len() >= 2 {
                    assert(columns.0[4] == left_cols@[4]@);
                    assert(columns.1[1] == right_cols@[1]@);
                    let point_raw = text::from_chars(left_cols[4].as_slice());
                    let device_raw = text::from_chars(right_cols[1].as_slice());
                    let point = unescape_mountinfo_field(point_raw.as_str());
                    let device = unescape_mountinfo_field(device_raw.as_str());
                    if paths::path_under(path, point.as_str()) && text::begins_with(
                        text::to_chars(device.as_str()).as_slice(),
                        prefix.as_slice(),
                    ) {
                        let parts = paths::components(text::to_chars(point.as_str()).as_slice());
                        let depth: usize = parts.len();
                        assert(paths::comps(point@).len() == depth);
                        let deeper = match &best {
                            Some(b) => b.0 < depth,
                            None => true,
                        };
                        if deeper {
                            best = Some((depth, device));
                        }
                    }
                }
            },
        }
        i = i + 1;
    }
    assert(all.take(all.len() as int) == all);
    match best {
        Some(b) => Some(b.1),
        None => None,
    }
}

/// A device number as `major:minor`.
pub open spec fn major_minor(raw: Seq<char>) -> Option<DeviceKey> {
    let parts = text::split_on(text::trimmed(raw), ':');
    if parts.len() != 2 {
        None
    } else {
        match (text::parsed_u64(text::trimmed(parts[0])), text::parsed_u64(text::trimmed(parts[1]))) {
            (Some(a), Some(b)) => Some((a, b)),
            _ => None,
        }
    }
}

/// Reads a device number as `major:minor`.
pub fn parse_major_minor(raw: &str) -> (r: Option<DeviceKey>)
    ensures
        r == major_minor(raw@),
{
    let parts = text::split(text::trim(text::to_chars(raw).as_slice()).as_slice(), ':');
    let ghost all = text::rows(parts@);
    assert(all.len() == parts@.len());
    if parts.len() != 2 {
        return None;
    }
    assert(all[0] == parts@[0]@ && all[1] == parts@[1]@);
    let major = text::parse_u64(text::trim(parts[0].as_slice()).as_slice());
    let minor = text::parse_u64(text::trim(parts[1].as_slice()).as_slice());
    match (major, minor) {
        (Some(a), Some(b)) => Some((a, b)),
        _ => None,
    }
}

/// A transfer argument that is plainly a local path, without its trailing
/// slashes.
pub open spec fn local_path(arg: Seq<char>) -> Option<Seq<char>> {
    let trimmed = text::trim_end_char(arg, '/');
    if text::begins(trimmed, "/"@) || text::begins(trimmed, "./"@) || text::begins(
        trimmed,
        "../"@,
    ) {
        Some(trimmed)
    } else {
        None
    }
}

/// Reads a transfer argument as a local path.
pub fn local_path_from_transfer_arg(arg: &str) -> (r: Option<String>)
    ensures
        paths::opt_text(r) == local_path(arg@),
{
    let trimmed = text::trim_end(text::to_chars(arg).as_slice(), '/');
    if text::begins_with(trimmed.as_slice(), text::to_chars("/").as_slice()) || text::begins_with(
        trimmed.as_slice(),
        text::to_chars("./").as_slice(),
    ) || text::begins_with(trimmed.as_slice(), text::to_chars("../").as_slice()) {
        Some(text::from_chars(trimmed.as_slice()))
    } else {
        None
    }
}

/// The end of one counter beyond its start, where both are known.
pub open spec fn delta(start: Option<u64>, end: Option<u64>) -> Option<u64> {
    match (start, end) {
        (Some(a), Some(b)) => Some(domain::sat_sub(b, a)),
        _ => None,
    }
}

/// Compares two readings of a counter.
pub fn counter_delta(start: Option<u64>, end: Option<u64>) -> (r: Option<u64>)
    ensures
        r == delta(start, end),
{
    runtime::option_u64_saturating_sub(end, start)
}

/// The I/O counters of a process.
#[derive(Clone, Copy, Debug, PartialEq, Eq, Structural)]
pub struct ProcIoCounters {
    pub rchar: u64,
    pub wchar: u64,
    pub read_bytes: u64,
    pub write_bytes: u64,
}

/// What a process read and wrote in a while, as far as known.
#[derive(Clone, Copy, Debug, PartialEq, Eq, Structural)]
pub struct ProcIoDeltas {
    pub rchar: Option<u64>,
    pub wchar: Option<u64>,
    pub read_bytes: Option<u64>,
    pub write_bytes: Option<u64>,
}

/// What devices read and wrote in a while, as far as known.
#[derive(Clone, Copy, Debug, PartialEq, Eq, Structural)]
pub struct DeviceIoDeltas {
    pub read_complete: Option<u64>,
    pub write_complete: Option<u64>,
}

/// What a process read and wrote between two readings.
pub open spec fn proc_delta(start: Option<ProcIoCounters>, end: Option<ProcIoCounters>) -> ProcIoDeltas {
    match (start, end) {
        (Some(a), Some(b)) => ProcIoDeltas {
            rchar: Some(domain::sat_sub(b.rchar, a.rchar)),
            wchar: Some(domain::sat_sub(b.wchar, a.wchar)),
            read_bytes: Some(domain::sat_sub(b.read_bytes, a.read_bytes)),
            write_bytes: Some(domain::sat_sub(b.write_bytes, a.write_bytes)),
        },
        _ => ProcIoDeltas { rchar: None, wchar: None, read_bytes: None, write_bytes: None },
    }
}

/// Compares two readings of a process.
pub fn proc_io_deltas(start: Option<ProcIoCounters>, end: Option<ProcIoCounters>) -> (r:
    ProcIoDeltas)
    ensures
        r == proc_delta(start, end),
{
    match (start, end) {
        (Some(a), Some(b)) => ProcIoDeltas {
            rchar: Some(b.rchar.saturating_sub(a.rchar)),
            wchar: Some(b.wchar.saturating_sub(a.wchar)),
            read_bytes: Some(b.read_bytes.saturating_sub(a.read_bytes)),
            write_bytes: Some(b.write_bytes.saturating_sub(a.write_bytes)),
        },
        _ => ProcIoDeltas { rchar: None, wchar: None, read_bytes: None, write_bytes: None },
    }
}

/// What devices read and wrote between two readings.
pub open spec fn device_delta(
    start: (Option<u64>, Option<u64>),
    end: (Option<u64>, Option<u64>),
) -> DeviceIoDeltas {
    DeviceIoDeltas {
        read_complete: delta(start.0, end.0),
        write_complete: delta(start.1, end.1),
    }
}

/// Compares two readings of devices.
pub fn device_io_deltas(start: (Option<u64>, Option<u64>), end: (Option<u64>, Option<u64>)) -> (r:
    DeviceIoDeltas)
    ensures
        r == device_delta(start, end),
{
    DeviceIoDeltas {
        read_complete: counter_delta(start.0, end.0),
        write_complete: counter_delta(start.1, end.1),
    }
}

impl ProcIoDeltas {
    /// Adds what was read and written later.
    pub fn plus(self, more: ProcIoDeltas) -> (r: ProcIoDeltas)
        ensures
            r == (ProcIoDeltas {
                rchar: runtime::known_sum(self.rchar, more.rchar),
                wchar: runtime::known_sum(self.wchar, more.wchar),
                read_bytes: runtime::known_sum(self.read_bytes, more.read_bytes),
                write_bytes: runtime::known_sum(self.write_bytes, more.write_bytes),
            }),
    {
        ProcIoDeltas {
            rchar: runtime::option_u64_saturating_add(self.rchar, more.rchar),
            wchar: runtime::option_u64_saturating_add(self.wchar, more.wchar),
            read_bytes: runtime::option_u64_saturating_add(self.read_bytes, more.read_bytes),
            write_bytes: runtime::option_u64_saturating_add(self.write_bytes, more.write_bytes),
        }
    }
}

impl DeviceIoDeltas {
    /// Adds what was read and written later.
    pub fn plus(self, more: DeviceIoDeltas) -> (r: DeviceIoDeltas)
        ensures
            r == (DeviceIoDeltas {
                read_complete: runtime::known_sum(self.read_complete, more.read_complete),
                write_complete: runtime::known_sum(self.write_complete, more.write_complete),
            }),
    {
        DeviceIoDeltas {
            read_complete: runtime::option_u64_saturating_add(
                self.read_complete,
                more.read_complete,
            ),
            write_complete: runtime::option_u64_saturating_add(
                self.write_complete,
                more.write_complete,
            ),
        }
    }
}

/// The value that the last line with a key gives it; `None` stands for a key
/// that no line has.
pub open spec fn last_value(lines: Seq<Seq<char>>, key: Seq<char>) -> Option<u64>
    decreases lines.len(),
{
    if lines.len() == 0 {
        None
    } else {
        let columns = text::words(lines.last());
        if columns.len() >= 2 && columns[0] == key {
            text::parsed_u64(columns[1])
        } else {
            last_value(lines.drop_last(), key)
        }
    }
}

/// Whether every line has a key and a number.
pub open spec fn all_keyed(lines: Seq<Seq<char>>) -> bool
    decreases lines.len(),
{
    if lines.len() == 0 {
        true
    } else {
        all_keyed(lines.drop_last()) && column_number(text::words(lines.last()), 1) is Some
    }
}

/// The counters that `/proc/<pid>/io` gives: all four, or none if a line
/// cannot be read.
pub open spec fn io_counters(raw: Seq<char>) -> Option<ProcIoCounters> {
    let lines = text::lines_of(raw);
    match (
        last_value(lines, "rchar:"@),
        last_value(lines, "wchar:"@),
        last_value(lines, "read_bytes:"@),
        last_value(lines, "write_bytes:"@),
    ) {
        (Some(rchar), Some(wchar), Some(read_bytes), Some(write_bytes)) => if all_keyed(lines) {
            Some(ProcIoCounters { rchar, wchar, read_bytes, write_bytes })
        } else {
            None
        },
        _ => None,
    }
}

proof fn lemma_unkeyed_stays(lines: Seq<Seq<char>>, n: int)
    requires
        0 <= n <= lines.len(),
        !all_keyed(lines.take(n)),
    ensures
        !all_keyed(lines),
    decreases lines.len() - n,
{
    if n < lines.len() {
        assert(lines.take(n + 1).drop_last() == lines.take(n));
        lemma_unkeyed_stays(lines, n + 1);
    } else {
        assert(lines.take(n) == lines);
    }
}

/// Reads `/proc/<pid>/io`.
pub fn parse_proc_io_counters(raw: &str) -> (r: Option<ProcIoCounters>)
    ensures
        r == io_counters(raw@),
{
    let lines = text::lines(text::to_chars(raw).as_slice());
    let ghost all = text::rows(lines@);
    let mut rchar: Option<u64> = None;
    let mut wchar: Option<u64> = None;
    let mut read_bytes: Option<u64> = None;
    let mut write_bytes: Option<u64> = None;
    let mut i: usize = 0;
    proof {
        assert(all.take(0) == Seq::<Seq<char>>::empty());
        reveal_strlit("rchar:");
        reveal_strlit("wchar:");
        reveal_strlit("read_bytes:");
        reveal_strlit("write_bytes:");
        assert("rchar:"@[0] != "wchar:"@[0]);
        assert("read_bytes:"@.len() != "write_bytes:"@.len());
    }
    while i < lines.len()
        invariant
            i <= lines@.len(),
            all == text::rows(lines@),
            all == text::lines_of(raw@),
            "rchar:"@ != "wchar:"@,
            "rchar:"@.len() == 6,
            "wchar:"@.len() == 6,
            "read_bytes:"@.len() == 11,
            "write_bytes:"@.len() == 12,
            all_keyed(all.take(i as int)),
            rchar == last_value(all.take(i as int), "rchar:"@),
            wchar == last_value(all.take(i as int), "wchar:"@),
            read_bytes == last_value(all.take(i as int), "read_bytes:"@),
            write_bytes == last_value(all.take(i as int), "write_bytes:"@),
        decreases lines@.len() - i,
    {
        let ghost step = all.take(i + 1);
        assert(step.drop_last() == all.take(i as int));
        assert(step.last() == lines@[i as int]@);
        let columns = text::split_words(lines[i].as_slice());
        let value: u64 = match number_at(&columns, 1) {
            Some(n) => n,
            None => {
                proof {
                    assert(!all_keyed(step));
                    lemma_unkeyed_stays(all, i + 1);
                }
                return None;
            },
        };
        let key = &columns[0];
        assert(text::rows(columns@)[0] == key@);
        if text::is_text(key.as_slice(), "rchar:") {
            rchar = Some(value);
        } else if text::is_text(key.as_slice(), "wchar:") {
            wchar = Some(value);
        } else if text::is_text(key.as_slice(), "read_bytes:") {
            read_bytes = Some(value);
        } else if text::is_text(key.as_slice(), "write_bytes:") {
            write_bytes = Some(value);
        }
        i = i + 1;
    }
    assert(all.take(all.len() as int) == all);
    match (rchar, wchar, read_bytes, write_bytes) {
        (Some(rchar), Some(wchar), Some(read_bytes), Some(write_bytes)) => Some(
            ProcIoCounters { rchar, wchar, read_bytes, write_bytes },
        ),
        _ => None,
    }
}

/// The name of a scheduler without the brackets around it.
pub open spec fn scheduler_name(token: Seq<char>) -> Seq<char> {
    let inner = text::trim_end_char(paths::skip_repeated(token, seq!['[']), '[');
    text::trim_end_char(paths::skip_repeated(inner, seq![']']), ']')
}

/// Whether a scheduler is marked as the one in use.
pub open spec fn is_in_use(token: Seq<char>) -> bool {
    text::begins(token, seq!['[']) && text::ends(token, seq![']']) && scheduler_name(token).len() > 0
}

/// The scheduler in use.
pub open spec fn active_scheduler(tokens: Seq<Seq<char>>) -> Option<Seq<char>>
    decreases tokens.len(),
{
    if tokens.len() == 0 {
        None
    } else if is_in_use(tokens.last()) {
        Some(scheduler_name(tokens.last()))
    } else {
        active_scheduler(tokens.drop_last())
    }
}

/// Whether a scheduler is on offer.
pub open spec fn is_offered(tokens: Seq<Seq<char>>, name: Seq<char>) -> bool {
    exists|i: int| 0 <= i < tokens.len() && scheduler_name(#[trigger] tokens[i]) == name
}

/// The scheduler that a rotating disk is to change to.
pub open spec fn scheduler_change(raw: Seq<char>) -> Option<Seq<char>> {
    let tokens = text::words(raw);
    let wanted = if is_offered(tokens, "mq-deadline"@) {
        Some("mq-deadline"@)
    } else if is_offered(tokens, "deadline"@) {
        Some("deadline"@)
    } else {
        None
    };
    if active_scheduler(tokens) == wanted {
        None
    } else {
        wanted
    }
}

fn unbracketed(token: &[char]) -> (r: Vec<char>)
    ensures
        r@ == scheduler_name(token@),
{
    let mut open: Vec<char> = Vec::new();
    open.push('[');
    let mut close: Vec<char> = Vec::new();
    close.push(']');
    assert(open@ == seq!['['] && close@ == seq![']']);
    let a = paths::strip_repeated(token, open.as_slice());
    let b = text::trim_end(a.as_slice(), '[');
    let c = paths::strip_repeated(b.as_slice(), close.as_slice());
    text::trim_end(c.as_slice(), ']')
}

/// Chooses the scheduler that a rotating disk is to change to.
pub fn preferred_scheduler(raw: &str) -> (r: Option<String>)
    ensures
        paths::opt_text(r) == scheduler_change(raw@),
{
    let tokens = text::split_words(text::to_chars(raw).as_slice());
    let ghost all = text::rows(tokens@);
    let mut open: Vec<char> = Vec::new();
    open.push('[');
    let mut close: Vec<char> = Vec::new();
    close.push(']');
    assert(open@ == seq!['['] && close@ == seq![']']);
    let mut active: Option<String> = None;
    let mut queued = false;
    let mut plain = false;
    let mut i: usize = 0;
    assert(all.take(0) == Seq::<Seq<char>>::empty());
    while i < tokens.len()
        invariant
            i <= tokens@.len(),
            all == text::rows(tokens@),
            open@ == seq!['['],
            close@ == seq![']'],
            paths::opt_text(active) == active_scheduler(all.take(i as int)),
            queued == is_offered(all.take(i as int), "mq-deadline"@),
            plain == is_offered(all.take(i as int), "deadline"@),
        decreases tokens@.len() - i,
    {
        let ghost step = all.take(i + 1);
        let ghost before = all.take(i as int);
        assert(step.drop_last() == before);
        assert(step == before.push(step.last()));
        let token = &tokens[i];
        assert(step.last() == token@);
        let name = unbracketed(token.as_slice());
        if text::begins_with(token.as_slice(), open.as_slice()) && text::ends_with(
            token.as_slice(),
            close.as_slice(),
        ) && name.len() > 0 {
            active = Some(text::from_chars(name.as_slice()));
        }
        let a = text::is_text(name.as_slice(), "mq-deadline");
        let b = text::is_text(name.as_slice(), "deadline");
        proof {
            lemma_offered_push(before, step.last(), "mq-deadline"@);
            lemma_offered_push(before, step.last(), "deadline"@);
        }
        queued = queued || a;
        plain = plain || b;
        i = i + 1;
    }
    assert(all.take(all.len() as int) == all);
    let wanted = if queued {
        "mq-deadline"
    } else if plain {
        "deadline"
    } else {
        return None;
    };
    match &active {
        Some(a) => if text::equal(a.as_str(), wanted) {
            return None;
        },
        None => {},
    }
    Some(text::copy(wanted))
}

proof fn lemma_offered_push(tokens: Seq<Seq<char>>, t: Seq<char>, name: Seq<char>)
    ensures
        is_offered(tokens.push(t), name) == (is_offered(tokens, name) || scheduler_name(t) == name),
{
    let more = tokens.push(t);
    if is_offered(tokens, name) {
        let i = choose|i: int| 0 <= i < tokens.len() && scheduler_name(#[trigger] tokens[i]) == name;
        assert(more[i] == tokens[i]);
    }
    if scheduler_name(t) == name {
        assert(more[tokens.len() as int] == t);
    }
    if is_offered(more, name) {
        let i = choose|i: int| 0 <= i < more.len() && scheduler_name(#[trigger] more[i]) == name;
        if i < tokens.len() {
            assert(tokens[i] == more[i]);
        }
    }
}

/// A line of disk statistics adds the sectors that were read to a source device that it
/// names, and those that were written to a destination device, 512 bytes each; any other
/// line adds nothing.
pub proof fn law_sectors_count_for_their_devices(
    lines: Seq<Seq<char>>,
    line: Seq<char>,
    src: Seq<DeviceKey>,
    dst: Seq<DeviceKey>,
)
    ensures
        ({
            let a = disk_bytes(lines, src, dst);
            let b = disk_bytes(lines.push(line), src, dst);
            &&& disk_line(line) is None ==> b == a
            &&& disk_line(line) matches Some(d) ==> {
                &&& !src.contains(d.key) ==> b.0 == a.0
                &&& !dst.contains(d.key) ==> b.1 == a.1
                &&& src.contains(d.key) && a.0 is None && d.sectors_read * 512 <= u64::MAX ==> b.0
                    == Some((d.sectors_read * 512) as u64)
                &&& src.contains(d.key) && a.0 is Some && a.0->0 + d.sectors_read * 512 <= u64::MAX
                    ==> b.0 == Some((a.0->0 + d.sectors_read * 512) as u64)
                &&& dst.contains(d.key) && a.1 is None && d.sectors_written * 512 <= u64::MAX
                    ==> b.1 == Some((d.sectors_written * 512) as u64)
                &&& dst.contains(d.key) && a.1 is Some && a.1->0 + d.sectors_written * 512
                    <= u64::MAX ==> b.1 == Some((a.1->0 + d.sectors_written * 512) as u64)
            }
            &&& disk_bytes(Seq::empty(), src, dst) == (None::<u64>, None::<u64>)
        }),
{
    assert(lines.push(line).drop_last() == lines);
}

/// The columns of disk statistics: the numbers of the device, and the sectors read and
/// written.
pub proof fn law_columns_of_disk_statistics(line: Seq<char>)
    requires
        text::words(line).len() >= 10,
    ensures
        disk_line(line) matches Some(d) ==> text::parsed_u64(text::words(line)[0]) == Some(d.key.0)
            && text::parsed_u64(text::words(line)[1]) == Some(d.key.1) && text::parsed_u64(
            text::words(line)[5],
        ) == Some(d.sectors_read) && text::parsed_u64(text::words(line)[9]) == Some(
            d.sectors_written,
        ),
{
}

/// A backslash with three octal digits stands for the byte that they make, and what follows
/// is read on behind them.
pub proof fn law_escapes_stand_for_bytes(a: u8, b: u8, c: u8, s: Seq<u8>, i: int)
    requires
        a <= 3 && b <= 7 && c <= 7,
        0 <= i,
        i + 3 < s.len(),
        s[i] == 92,
        s[i + 1] == 48 + a,
        s[i + 2] == 48 + b,
        s[i + 3] == 48 + c,
    ensures
        unescaped_from(s, i) == seq![(a * 64 + b * 8 + c) as u8] + unescaped_from(s, i + 4),
{
}

/// Any other byte stands for itself.
pub proof fn law_other_bytes_stand_for_themselves(s: Seq<u8>, i: int)
    requires
        0 <= i < s.len(),
        s[i] != 92 || i + 3 >= s.len() || s[i + 1] > 51,
    ensures
        unescaped_from(s, i) == seq![s[i]] + unescaped_from(s, i + 1),
{
}

/// A block device is known by its numbers, unless it has none.
pub proof fn law_zero_is_no_device(rdev: u64)
    ensures
        block_device_key(rdev) is None <==> rdev == 0,
        rdev != 0 ==> block_device_key(rdev) == Some((major_of(rdev), minor_of(rdev))),
{
}

/// A counter tells how far it went where both of its readings are known, and never less
/// than nothing.
pub proof fn law_counters_tell_how_far_they_went(a: u64, b: u64)
    ensures
        a <= b ==> delta(Some(a), Some(b)) == Some((b - a) as u64),
        a > b ==> delta(Some(a), Some(b)) == Some(0u64),
        delta(None, Some(b)) is None,
        delta(Some(a), None) is None,
        device_delta((Some(a), None), (Some(b), None)).read_complete == delta(Some(a), Some(b)),
        device_delta((None, Some(a)), (None, Some(b))).write_complete == delta(Some(a), Some(b)),
        device_delta((None, Some(a)), (None, Some(b))).read_complete is None,
{
}

/// Each counter of a process is compared with itself.
pub proof fn law_counters_are_compared_with_themselves(a: ProcIoCounters, b: ProcIoCounters)
    requires
        a.rchar <= b.rchar && a.wchar <= b.wchar,
        a.read_bytes <= b.read_bytes && a.write_bytes <= b.write_bytes,
    ensures
        ({
            let d = proc_delta(Some(a), Some(b));
            &&& d.rchar == Some((b.rchar - a.rchar) as u64)
            &&& d.wchar == Some((b.wchar - a.wchar) as u64)
            &&& d.read_bytes == Some((b.read_bytes - a.read_bytes) as u64)
            &&& d.write_bytes == Some((b.write_bytes - a.write_bytes) as u64)
        }),
{
}

/// The last line of a key gives its value, and lines of other keys do not matter.
pub proof fn law_the_last_line_of_a_key_counts(
    lines: Seq<Seq<char>>,
    line: Seq<char>,
    key: Seq<char>,
)
    ensures
        text::words(line).len() >= 2 && text::words(line)[0] == key ==> last_value(
            lines.push(line),
            key,
        ) == text::parsed_u64(text::words(line)[1]),
        text::words(line).len() < 2 || text::words(line)[0] != key ==> last_value(
            lines.push(line),
            key,
        ) == last_value(lines, key),
        last_value(Seq::empty(), key) is None,
{
    assert(lines.push(line).drop_last() == lines);
}

/// Counters are read only where all four are there, each under its own key.
pub proof fn law_all_four_counters_are_needed(raw: Seq<char>)
    ensures
        io_counters(raw) matches Some(c) ==> {
            let lines = text::lines_of(raw);
            &&& last_value(lines, "rchar:"@) == Some(c.rchar)
            &&& last_value(lines, "wchar:"@) == Some(c.wchar)
            &&& last_value(lines, "read_bytes:"@) == Some(c.read_bytes)
            &&& last_value(lines, "write_bytes:"@) == Some(c.write_bytes)
        },
        last_value(text::lines_of(raw), "rchar:"@) is None ==> io_counters(raw) is None,
        last_value(text::lines_of(raw), "write_bytes:"@) is None ==> io_counters(raw) is None,
{
}

/// A scheduler is changed only to one that is on offer and not in use: to `mq-deadline` where
/// that is on offer, and else to `deadline`.
pub proof fn law_schedulers_are_changed_to_what_is_on_offer(raw: Seq<char>)
    ensures
        ({
            let tokens = text::words(raw);
            let r = scheduler_change(raw);
            &&& r matches Some(name) ==> is_offered(tokens, name) && active_scheduler(tokens) != Some(
                name,
            )
            &&& r matches Some(name) ==> name == "mq-deadline"@ || name == "deadline"@
            &&& is_offered(tokens, "mq-deadline"@) && active_scheduler(tokens) != Some(
                "mq-deadline"@,
            ) ==> r == Some("mq-deadline"@)
            &&& is_offered(tokens, "mq-deadline"@) && active_scheduler(tokens) == Some(
                "mq-deadline"@,
            ) ==> r is None
            &&& !is_offered(tokens, "mq-deadline"@) && !is_offered(tokens, "deadline"@) ==> r
                is None
        }),
{
}

/// An argument is plainly local where it begins with a slash or with dots and a slash; its
/// trailing slashes are dropped.
pub proof fn law_plainly_local_arguments(arg: Seq<char>)
    requires
        arg.len() > 0,
        arg.last() != '/',
    ensures
        arg[0] == '/' ==> local_path(arg) == Some(arg),
        arg[0] != '/' && arg[0] != '.' ==> local_path(arg) is None,
        arg.len() > 1 && arg[0] == '.' && arg[1] == '/' ==> local_path(arg) == Some(arg),
{
    reveal_strlit("/");
    reveal_strlit("./");
    reveal_strlit("../");
    assert(arg.take(1)[0] == arg[0]);
    if arg[0] == '/' {
        assert(arg.take(1) == "/"@);
    }
    if arg.len() > 1 {
        assert(arg.take(2)[0] == arg[0]);
        if arg[0] == '.' && arg[1] == '/' {
            assert(arg.take(2) == "./"@);
        }
    }
    if arg.len() > 2 {
        assert(arg.take(3)[0] == arg[0]);
    }
}

/// A device number is read as it is written, white space around it or not.
pub proof fn law_device_numbers_are_read_back(major: u64, minor: u64)
    ensures
        major_minor(text::decimal(major as nat) + seq![':'] + text::decimal(minor as nat)) == Some(
            (major, minor),
        ),
        major_minor(
            text::decimal(major as nat) + seq![':'] + text::decimal(minor as nat) + seq!['\n'],
        ) == Some((major, minor)),
{
    let a = text::decimal(major as nat);
    let b = text::decimal(minor as nat);
    let s = a + seq![':'] + b;
    text::law_number_round_trip(major);
    text::law_number_round_trip(minor);
    text::lemma_decimal_value(major as nat);
    text::lemma_decimal_value(minor as nat);
    lemma_numeral(a);
    lemma_numeral(b);
    lemma_two_numerals(a, b);
    assert(s[0] == a[0]);
    assert(s.last() == b.last());
    lemma_dark_is_kept(s);
    lemma_line_is_trimmed(s);
}

proof fn lemma_numeral(a: Seq<char>)
    requires
        a.len() > 0,
        text::all_digits(a),
    ensures
        !a.contains(':'),
        !text::is_white(a[0]),
        !text::is_white(a.last()),
        text::trimmed(a) == a,
{
    if a.contains(':') {
        let i = choose|i: int| 0 <= i < a.len() && a[i] == ':';
        assert(text::is_digit(a[i]));
    }
    assert(text::is_digit(a[0]));
    assert(text::is_digit(a[a.len() - 1]));
    lemma_dark_is_kept(a);
}

proof fn lemma_two_numerals(a: Seq<char>, b: Seq<char>)
    requires
        !a.contains(':'),
        !b.contains(':'),
    ensures
        text::split_on(a + seq![':'] + b, ':') == seq![a, b],
{
    let empty = Seq::<char>::empty();
    crate::changes::lemma_split_append(empty, a, ':');
    assert(empty + a == a);
    assert(text::split_on(empty, ':') == seq![empty]);
    assert(text::split_on(a, ':') == seq![a]);
    let head = a.push(':');
    assert(head.drop_last() == a);
    assert(text::split_on(head, ':') == seq![a, empty]);
    crate::changes::lemma_split_append(head, b, ':');
    assert(head + b == a + seq![':'] + b);
    assert(empty + b == b);
    assert(seq![a, empty].drop_last().push(b) == seq![a, b]);
}

proof fn lemma_line_is_trimmed(s: Seq<char>)
    requires
        s.len() > 0,
        !text::is_white(s[0]),
        !text::is_white(s.last()),
    ensures
        text::trimmed(s + seq!['\n']) == s,
{
    let t = s.push('\n');
    assert(s + seq!['\n'] == t);
    assert(t[0] == s[0]);
    assert(text::trim_start_white(t) == t);
    assert(t.drop_last() == s);
    assert(t.last() == '\n');
    lemma_dark_is_kept(s);
    assert(text::trim_end_white(t) == text::trim_end_white(s));
}

proof fn lemma_dark_is_kept(s: Seq<char>)
    requires
        s.len() > 0,
        !text::is_white(s[0]),
        !text::is_white(s.last()),
    ensures
        text::trimmed(s) == s,
        text::trim_end_white(s) == s,
{
}

/// Only a mount of a device, at the path or above it, holds a path.
pub proof fn law_mounts_hold_what_lies_below(
    columns: (Seq<Seq<char>>, Seq<Seq<char>>),
    path: Seq<char>,
)
    requires
        columns.0.len() >= 5,
        columns.1.len() >= 2,
    ensures
        mount_match(columns, path) is Some <==> paths::under(path, unescaped(columns.0[4]))
            && text::begins(unescaped(columns.1[1]), "/dev/"@),
        mount_match(columns, path) matches Some(m) ==> m.1 == unescaped(columns.1[1]) && m.0
            <= paths::comps(path).len(),
{
}

} // verus!
