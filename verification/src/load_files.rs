//! Which files hold point-cloud frames and in which order, and the inertial samples in the
//! order of their times.

use vstd::prelude::*;
use vstd::string::*;

use crate::float::arith;
use crate::float::double::F64;
use crate::float::single::F32;
use crate::sorting;
use crate::sorting::stable_order;

verus! {

/// The bit pattern of 1 000 000 000.
pub const NANOS_PER_SECOND: u64 = 0x41cd_cd65_0000_0000;

/// Why the frame files could not be listed.
#[derive(Clone, Copy, PartialEq, Eq, Structural, Debug)]
pub enum LoadError {
    /// The pattern of frame file names does not compile.
    InvalidPattern,
}

/// The error of the `regex` crate.
#[verifier::external_type_specification]
#[verifier::external_body]
pub struct ExRegexError(regex::Error);

/// A decimal digit.
pub open spec fn is_digit(c: char) -> bool {
    '0' <= c && c <= '9'
}

/// `text` ends in `frame_`, the characters `d`, at least one, and `.pcd`.
pub open spec fn ends_as_frame(text: Seq<char>, d: Seq<char>) -> bool {
    let n = text.len() - 4 - d.len();
    &&& d.len() > 0
    &&& n >= 6
    &&& text.subrange(n - 6, n) == "frame_"@
    &&& text.subrange(n, n + d.len()) == d
    &&& text.subrange(n + d.len(), text.len() as int) == ".pcd"@
}

/// `text` ends in `frame_`, the decimal digits `d`, at least one, and `.pcd`.
pub open spec fn is_frame_name(text: Seq<char>, d: Seq<char>) -> bool {
    ends_as_frame(text, d) && forall|i: int| 0 <= i < d.len() ==> is_digit(#[trigger] d[i])
}

/// What is known of the group that the frame pattern matches: it stands where a frame name has
/// its digits, its characters are decimal digits or lie outside ASCII, and a name with decimal
/// digits is always matched.
pub open spec fn is_frame_group(text: Seq<char>, group: Option<Seq<char>>) -> bool {
    &&& group matches Some(d) ==> ends_as_frame(text, d) && forall|i: int|
        0 <= i < d.len() ==> is_digit(#[trigger] d[i]) || d[i] as u32 >= 128
    &&& forall|d: Seq<char>| #[trigger] is_frame_name(text, d) ==> group == Some(d)
}

/// What the first group of the frame pattern matches in `text`: `regex::Regex::new`,
/// `regex::Regex::captures` and `regex::Captures::get`.
///
/// The frame pattern compiles, and its group is what `is_frame_group` says: `\d` takes the Unicode
/// decimal digits and `$` only the end of the text. Which characters outside ASCII count as digits
/// is not said.
#[verifier::external_body]
fn first_group(pattern: &str, text: &str) -> (r: Result<Option<String>, regex::Error>)
    requires
        pattern@ == "frame_(\\d+)\\.pcd$"@,
    ensures
        match r {
            Ok(Some(d)) => is_frame_group(text@, Some(d@)),
            Ok(None) => is_frame_group(text@, None),
            Err(_) => false,
        },
{
    let re = regex::Regex::new(pattern)?;
    Ok(re.captures(text).and_then(|c| c.get(1)).map(|m| m.as_str().to_string()))
}

/// The number that the decimal digits `d` write.
pub open spec fn decimal(d: Seq<char>) -> nat
    decreases d.len(),
{
    if d.len() == 0 {
        0
    } else {
        decimal(d.drop_last()) * 10 + (d.last() as nat - '0' as nat) as nat
    }
}

/// The number of the frame that the file name `text` belongs to, where it is a frame name and
/// the number fits in 32 bits.
pub open spec fn frame_number(text: Seq<char>) -> Option<u32> {
    if exists|d: Seq<char>| is_frame_name(text, d) {
        let n = decimal(choose|d: Seq<char>| is_frame_name(text, d));
        if n <= u32::MAX {
            Some(n as u32)
        } else {
            None
        }
    } else {
        None
    }
}

/// A name has one run of frame digits only.
pub proof fn frame_digits_unique(text: Seq<char>, d: Seq<char>, e: Seq<char>)
    requires
        is_frame_name(text, d),
        is_frame_name(text, e),
    ensures
        d == e,
{
    digits_no_shorter(text, d, e);
    digits_no_shorter(text, e, d);
    assert(d =~= e);
}

proof fn digits_no_shorter(text: Seq<char>, d: Seq<char>, e: Seq<char>)
    requires
        is_frame_name(text, d),
        is_frame_name(text, e),
    ensures
        d.len() >= e.len(),
{
    reveal_strlit("frame_");
    if d.len() < e.len() {
        let n = text.len() - 4 - d.len();
        let m = text.len() - 4 - e.len();
        // The underscore before the shorter run stands among the digits of the longer one.
        assert(text.subrange(n - 6, n)[5] == text[n - 1]);
        assert(text.subrange(m, m + e.len())[n - 1 - m] == text[n - 1]);
        assert(is_digit(e[n - 1 - m]));
    }
}

proof fn decimal_grows(d: Seq<char>, i: int)
    requires
        0 <= i <= d.len(),
    ensures
        decimal(d.take(i)) <= decimal(d),
    decreases d.len() - i,
{
    if i < d.len() {
        decimal_grows(d, i + 1);
        assert(d.take(i + 1).drop_last() =~= d.take(i));
    } else {
        assert(d.take(i) =~= d);
    }
}

/// The number that digits write is that of the digits read from the first to the last, each adding its
/// own value to ten times what came before, however many there are.
pub proof fn every_digit_counts(d: Seq<char>)
    ensures
        decimal(d) == d.fold_left(0nat, |n: nat, c: char| n * 10 + (c as nat - '0' as nat) as nat),
    decreases d.len(),
{
    if d.len() > 0 {
        every_digit_counts(d.drop_last());
    }
}

/// A name that ends in `frame_`, decimal digits and `.pcd` is that of the frame with the number that
/// the digits write, whatever comes before, where the number fits in 32 bits.
pub proof fn frame_names_give_their_number(front: Seq<char>, d: Seq<char>)
    requires
        d.len() > 0,
        forall|i: int| 0 <= i < d.len() ==> '0' <= #[trigger] d[i] <= '9',
    ensures
        ({
            let n = d.fold_left(
                0nat,
                |n: nat, c: char| n * 10 + (c as nat - '0' as nat) as nat,
            );
            frame_number(front + "frame_"@ + d + ".pcd"@) == if n <= u32::MAX {
                Some(n as u32)
            } else {
                None
            }
        }),
{
    let text = front + "frame_"@ + d + ".pcd"@;
    reveal_strlit("frame_");
    reveal_strlit(".pcd");
    let n = text.len() - 4 - d.len();
    assert(text.subrange(n - 6, n) =~= "frame_"@);
    assert(text.subrange(n, n + d.len()) =~= d);
    assert(text.subrange(n + d.len(), text.len() as int) =~= ".pcd"@);
    assert(is_frame_name(text, d));
    let e = choose|e: Seq<char>| is_frame_name(text, e);
    frame_digits_unique(text, d, e);
    every_digit_counts(d);
}

/// Only such a name has a number.
pub proof fn only_frame_names_have_numbers(text: Seq<char>)
    requires
        frame_number(text) is Some,
    ensures
        exists|front: Seq<char>, d: Seq<char>|
            #![trigger front + "frame_"@ + d]
            {
                &&& text == front + "frame_"@ + d + ".pcd"@
                &&& d.len() > 0
                &&& forall|i: int| 0 <= i < d.len() ==> '0' <= #[trigger] d[i] <= '9'
            },
{
    reveal_strlit("frame_");
    reveal_strlit(".pcd");
    let d = choose|d: Seq<char>| is_frame_name(text, d);
    assert(is_frame_name(text, d));
    let n = text.len() - 4 - d.len();
    let front = text.take(n - 6);
    let whole = front + "frame_"@ + d + ".pcd"@;
    assert(text =~= whole) by {
        assert forall|i: int| 0 <= i < text.len() implies text[i] == whole[i] by {
            if n - 6 <= i < n {
                assert(text.subrange(n - 6, n)[i - (n - 6)] == text[i]);
            } else if n <= i < n + d.len() {
                assert(text.subrange(n, n + d.len())[i - n] == text[i]);
            } else if i >= n + d.len() {
                assert(text.subrange(n + d.len(), text.len() as int)[i - n - d.len()] == text[i]);
            }
        }
    }
    assert forall|i: int| 0 <= i < d.len() implies '0' <= #[trigger] d[i] <= '9' by {
        assert(is_digit(d[i]));
    }
}

/// Reads a run of decimal digits.
fn parse_number(s: &str) -> (r: Option<u32>)
    ensures
        r == (if s@.len() > 0 && (forall|i: int| 0 <= i < s@.len() ==> is_digit(#[trigger] s@[i]))
            && decimal(s@) <= u32::MAX {
            Some(decimal(s@) as u32)
        } else {
            None
        }),
{
    let n: usize = s.unicode_len();
    if n == 0 {
        return None;
    }
    let mut i: usize = 0;
    let mut acc: u64 = 0;
    assert(s@.take(0) =~= Seq::<char>::empty());
    while i < n
        invariant
            n == s@.len(),
            i <= n,
            acc <= u32::MAX,
            acc == decimal(s@.take(i as int)),
            forall|k: int| 0 <= k < i ==> is_digit(#[trigger] s@[k]),
        decreases n - i,
    {
        let c: char = s.get_char(i);
        if !('0' <= c && c <= '9') {
            assert(!is_digit(s@[i as int]));
            return None;
        }
        let v: u64 = c as u64 - '0' as u64;
        proof {
            assert(s@.take(i + 1).drop_last() =~= s@.take(i as int));
            decimal_grows(s@, i + 1);
        }
        acc = acc * 10 + v;
        if acc > u32::MAX as u64 {
            return None;
        }
        i = i + 1;
    }
    assert(s@.take(n as int) =~= s@);
    Some(acc as u32)
}

/// The number of the frame that a file name belongs to.
pub fn frame_number_of(name: &str) -> (r: Result<Option<u32>, LoadError>)
    ensures
        r == Ok::<Option<u32>, LoadError>(frame_number(name@)),
{
    match first_group("frame_(\\d+)\\.pcd$", name) {
        Err(_) => Err(LoadError::InvalidPattern),
        Ok(None) => {
            proof {
                if exists|d: Seq<char>| is_frame_name(name@, d) {
                    let d = choose|d: Seq<char>| is_frame_name(name@, d);
                    assert(is_frame_name(name@, d));
                }
            }
            Ok(None)
        },
        Ok(Some(group)) => {
            proof {
                let g = group@;
                if exists|d: Seq<char>| is_frame_name(name@, d) {
                    let d = choose|d: Seq<char>| is_frame_name(name@, d);
                    assert(d == g);
                } else {
                    assert(!is_frame_name(name@, g));
                }
            }
            Ok(parse_number(group.as_str()))
        },
    }
}

/// An entry of the directory of frames: its path, whether it is a file, and its name where the
/// name is text.
pub struct DirEntry<P> {
    pub path: P,
    pub is_file: bool,
    pub file_name: Option<String>,
}

/// The frame number of an entry that is a frame file.
pub open spec fn frame_of<P>(e: DirEntry<P>) -> Option<u32> {
    if e.is_file && e.file_name is Some {
        frame_number(e.file_name.unwrap()@)
    } else {
        None
    }
}

/// The entries that are frame files, in the order they came in.
pub open spec fn frame_entries<P>(entries: Seq<DirEntry<P>>) -> Seq<DirEntry<P>> {
    entries.filter(|e: DirEntry<P>| frame_of(e) is Some)
}

/// The frame numbers of the frame files.
pub open spec fn frame_keys<P>(entries: Seq<DirEntry<P>>) -> Seq<u64> {
    frame_entries(entries).map_values(|e: DirEntry<P>| frame_of(e).unwrap() as u64)
}

/// `paths` are the paths of the frame files by ascending frame number, equal numbers in the
/// order they came in.
pub open spec fn are_frame_paths<P>(entries: Seq<DirEntry<P>>, paths: Seq<P>) -> bool {
    exists|order: Seq<usize>|
        {
            &&& #[trigger] sorting::is_stable_order(frame_keys(entries), order)
            &&& paths == order.map_values(|i: usize| frame_entries(entries)[i as int].path)
        }
}

/// The frame files are all entries that are files with the name of a frame, and no others, in the order
/// they came in.
pub proof fn every_frame_file_is_listed<P>(entries: Seq<DirEntry<P>>)
    ensures
        frame_entries(entries) == entries.filter(
            |e: DirEntry<P>|
                e.is_file && e.file_name is Some && frame_number(e.file_name.unwrap()@) is Some,
        ),
        frame_keys(entries).len() == frame_entries(entries).len(),
        forall|i: int|
            0 <= i < frame_entries(entries).len() ==> frame_number(
                (#[trigger] frame_entries(entries)[i]).file_name.unwrap()@,
            ) == Some(frame_keys(entries)[i] as u32) && frame_keys(entries)[i] <= u32::MAX,
{
    let named = |e: DirEntry<P>|
        e.is_file && e.file_name is Some && frame_number(e.file_name.unwrap()@) is Some;
    assert(named =~= |e: DirEntry<P>| frame_of(e) is Some);
    broadcast use vstd::seq_lib::group_filter_ensures;

    assert forall|i: int| 0 <= i < frame_entries(entries).len() implies frame_number(
        (#[trigger] frame_entries(entries)[i]).file_name.unwrap()@,
    ) == Some(frame_keys(entries)[i] as u32) && frame_keys(entries)[i] <= u32::MAX by {
        assert(named(entries.filter(named)[i]));
    }
}

/// The paths of the frame files among the entries of a directory, by ascending frame number.
pub fn load_pcd_files<P>(entries: Vec<DirEntry<P>>) -> (r: Result<Vec<P>, LoadError>)
    ensures
        r matches Ok(paths) && are_frame_paths(entries@, paths@),
        r matches Ok(paths) && exists|order: Seq<usize>|
            {
                let frames = entries@.filter(
                    |e: DirEntry<P>|
                        e.is_file && e.file_name is Some && frame_number(
                            e.file_name.unwrap()@,
                        ) is Some,
                );
                &&& #[trigger] order.no_duplicates()
                &&& order.len() == frames.len()
                &&& paths.len() == frames.len()
                &&& forall|k: int|
                    0 <= k < order.len() ==> #[trigger] order[k] < frames.len() && paths[k]
                        == frames[order[k] as int].path
                &&& forall|k: int, l: int|
                    0 <= k < l < order.len() ==> {
                        let (a, b) = (#[trigger] order[k], #[trigger] order[l]);
                        let m = frame_number(frames[a as int].file_name.unwrap()@).unwrap();
                        let n = frame_number(frames[b as int].file_name.unwrap()@).unwrap();
                        m < n || (m == n && a < b)
                    }
            },
{
    let ghost all = entries@;
    let ghost pred = |e: DirEntry<P>| frame_of(e) is Some;
    let mut slots: Vec<Option<P>> = Vec::new();
    let mut keys: Vec<u64> = Vec::new();
    let ghost kept = frame_entries(all);
    assert(all.take(0).filter(pred) =~= Seq::<DirEntry<P>>::empty()) by {
        reveal(Seq::filter);
    }
    for entry in iter: entries
        invariant
            iter.seq() == all,
            pred == (|e: DirEntry<P>| frame_of(e) is Some),
            slots@ == all.take(iter.index()).filter(pred).map_values(
                |e: DirEntry<P>| Some(e.path),
            ),
            keys@ == all.take(iter.index()).filter(pred).map_values(
                |e: DirEntry<P>| frame_of(e).unwrap() as u64,
            ),
    {
        proof {
            reveal(Seq::filter);
            assert(all.take(iter.index() + 1).drop_last() =~= all.take(iter.index()));
        }
        if entry.is_file {
            if let Some(name) = &entry.file_name {
                match frame_number_of(name.as_str()) {
                    Err(e) => {
                        return Err(e);
                    },
                    Ok(Some(num)) => {
                        slots.push(Some(entry.path));
                        keys.push(num as u64);
                    },
                    Ok(None) => {},
                }
            }
        }
    }
    assert(all.take(all.len() as int) =~= all);
    let order: Vec<usize> = stable_order(&keys);
    let mut paths: Vec<P> = Vec::new();
    let mut k: usize = 0;
    while k < order.len()
        invariant
            k <= order.len(),
            slots.len() == kept.len(),
            keys.len() == kept.len(),
            sorting::is_stable_order(keys@, order@),
            forall|l: int|
                k <= l < order.len() ==> slots@[(#[trigger] order[l]) as int] == Some(
                    kept[order[l] as int].path,
                ),
            paths@ == order@.take(k as int).map_values(|i: usize| kept[i as int].path),
        decreases order.len() - k,
    {
        let i: usize = order[k];
        let slot: Option<P> = slots[i].take();
        assert forall|l: int| k < l < order.len() implies slots@[(#[trigger] order[l]) as int]
            == Some(kept[order[l] as int].path) by {
            assert(sorting::goes_before(keys@, order[k as int], order[l]));
        }
        if let Some(path) = slot {
            paths.push(path);
        }
        assert(order@.take(k + 1).drop_last() =~= order@.take(k as int));
        assert(paths@ =~= order@.take(k + 1).map_values(|i: usize| kept[i as int].path));
        k = k + 1;
    }
    assert(order@.take(order@.len() as int) =~= order@);
    assert(keys@ =~= frame_keys(all));
    assert(sorting::is_stable_order(frame_keys(all), order@));
    proof {
        every_frame_file_is_listed(all);
        sorting::stable_orders_are_sorted(frame_keys(all), order@);
        let frames = frame_entries(all);
        assert forall|k: int| 0 <= k < order.len() implies #[trigger] order@[k] < frames.len()
            && paths@[k] == frames[order@[k] as int].path by {}
        assert forall|k: int, l: int| 0 <= k < l < order.len() implies ({
            let (a, b) = (#[trigger] order@[k], #[trigger] order@[l]);
            let m = frame_number(frames[a as int].file_name.unwrap()@).unwrap();
            let n = frame_number(frames[b as int].file_name.unwrap()@).unwrap();
            m < n || (m == n && a < b)
        }) by {
            let (a, b) = (order@[k] as int, order@[l] as int);
            assert(frame_number(frames[a].file_name.unwrap()@) == Some(frame_keys(all)[a] as u32));
            assert(frame_number(frames[b].file_name.unwrap()@) == Some(frame_keys(all)[b] as u32));
        }
    }
    Ok(paths)
}

/// A record of the inertial unit: a time in nanoseconds and three components of each sensor.
#[derive(Clone, Copy, Debug)]
pub struct LivoxImu {
    pub timestamp: u64,
    pub angular_velocity: [F32; 3],
    pub linear_acceleration: [F32; 3],
}

/// A sample of the inertial unit with its time in seconds.
#[derive(Clone, Copy, Debug)]
pub struct ImuSample {
    pub timestamp_sec: F64,
    pub gyro: [F32; 3],
    pub linear_acceleration: [F32; 3],
}

/// A number of nanoseconds as seconds.
#[verifier::allow_in_spec]
pub fn seconds(nanos: u64) -> F64
    returns
        F64::from_count(nanos).over(F64 { bits: NANOS_PER_SECOND }),
{
    F64::from_count(nanos).over(F64 { bits: NANOS_PER_SECOND })
}

/// The sample that a record stands for.
#[verifier::allow_in_spec]
pub fn sample_of(batch: LivoxImu) -> ImuSample
    returns
        (ImuSample {
            timestamp_sec: seconds(batch.timestamp),
            gyro: batch.angular_velocity,
            linear_acceleration: batch.linear_acceleration,
        }),
{
    ImuSample {
        timestamp_sec: seconds(batch.timestamp),
        gyro: batch.angular_velocity,
        linear_acceleration: batch.linear_acceleration,
    }
}

/// The time of a record is neither negative nor a not-a-number, so every two times compare.
pub proof fn seconds_are_ordered(a: u64, b: u64)
    ensures
        !seconds(a).is_nan(),
        !seconds(b).is_nan(),
        seconds(a).lt(seconds(b)) <==> seconds(a).bits < seconds(b).bits,
{
    seconds_pattern(a);
    seconds_pattern(b);
    reveal(F64::spec_lt);
    let (x, y) = (seconds(a), seconds(b));
    if x.bits < y.bits {
        arith::lemma_units_ordered(53, x.bits as nat, y.bits as nat);
    } else if y.bits < x.bits {
        arith::lemma_units_ordered(53, y.bits as nat, x.bits as nat);
    }
}

proof fn seconds_pattern(a: u64)
    ensures
        seconds(a).bits <= 0x7ff0_0000_0000_0000,
        !seconds(a).is_nan(),
{
    reveal(F64::spec_from_count);
    reveal(F64::spec_over);
    reveal(F64::spec_is_nan);
}

/// The times of the records, as sorting keys.
pub open spec fn time_keys(batches: Seq<LivoxImu>) -> Seq<u64> {
    batches.map_values(|b: LivoxImu| seconds(b.timestamp).bits)
}

/// `samples` are the samples of the records by ascending time, equal times in the order they
/// came in.
pub open spec fn are_sorted_samples(batches: Seq<LivoxImu>, samples: Seq<ImuSample>) -> bool {
    exists|order: Seq<usize>|
        {
            &&& #[trigger] sorting::is_stable_order(time_keys(batches), order)
            &&& samples == order.map_values(|i: usize| sample_of(batches[i as int]))
        }
}

/// Sorting the samples leaves none out and makes none up: each record gives one sample, and each sample
/// is that of a record.
pub proof fn every_record_gives_a_sample(batches: Seq<LivoxImu>, samples: Seq<ImuSample>)
    requires
        batches.len() <= usize::MAX,
        are_sorted_samples(batches, samples),
    ensures
        samples.len() == batches.len(),
        forall|i: int|
            0 <= i < batches.len() ==> samples.contains(
                ImuSample {
                    timestamp_sec: seconds((#[trigger] batches[i]).timestamp),
                    gyro: batches[i].angular_velocity,
                    linear_acceleration: batches[i].linear_acceleration,
                },
            ),
        forall|k: int|
            0 <= k < samples.len() ==> batches.map_values(
                |b: LivoxImu| sample_of(b),
            ).contains(#[trigger] samples[k]),
{
    let order = choose|order: Seq<usize>|
        {
            &&& #[trigger] sorting::is_stable_order(time_keys(batches), order)
            &&& samples == order.map_values(|i: usize| sample_of(batches[i as int]))
        };
    sorting::stable_orders_are_sorted(time_keys(batches), order);
    assert forall|i: int| 0 <= i < batches.len() implies samples.contains(
        sample_of(#[trigger] batches[i]),
    ) by {
        assert(order.contains(i as usize));
        let k = choose|k: int| 0 <= k < order.len() && order[k] == i as usize;
        assert(samples[k] == sample_of(batches[i]));
    }
    let all = batches.map_values(|b: LivoxImu| sample_of(b));
    assert forall|k: int| 0 <= k < samples.len() implies all.contains(#[trigger] samples[k]) by {
        assert(all[order[k] as int] == samples[k]);
    }
}

/// The samples of the records by ascending time.
pub fn load_and_flatten_imu_json(batches: &Vec<LivoxImu>) -> (samples: Vec<ImuSample>)
    ensures
        are_sorted_samples(batches@, samples@),
        samples.len() == batches.len(),
        exists|order: Seq<usize>|
            {
                &&& #[trigger] order.no_duplicates()
                &&& order.len() == batches.len()
                &&& forall|k: int|
                    0 <= k < order.len() ==> #[trigger] order[k] < batches.len() && samples[k] == (
                    ImuSample {
                        timestamp_sec: seconds(batches[order[k] as int].timestamp),
                        gyro: batches[order[k] as int].angular_velocity,
                        linear_acceleration: batches[order[k] as int].linear_acceleration,
                    })
                &&& forall|k: int, l: int|
                    0 <= k < l < order.len() && samples[k].timestamp_sec
                        == samples[l].timestamp_sec ==> #[trigger] order[k] < #[trigger] order[l]
            },
        forall|k: int, l: int|
            0 <= k < l < samples.len() ==> (#[trigger] samples[k]).timestamp_sec.le(
                (#[trigger] samples[l]).timestamp_sec,
            ),
{
    let mut keys: Vec<u64> = Vec::new();
    let mut i: usize = 0;
    while i < batches.len()
        invariant
            i <= batches.len(),
            keys@ == time_keys(batches@).take(i as int),
        decreases batches.len() - i,
    {
        keys.push(seconds(batches[i].timestamp).bits);
        i = i + 1;
        assert(keys@ =~= time_keys(batches@).take(i as int));
    }
    assert(keys@ =~= time_keys(batches@));
    let order: Vec<usize> = stable_order(&keys);
    let mut samples: Vec<ImuSample> = Vec::new();
    let mut k: usize = 0;
    while k < order.len()
        invariant
            k <= order.len(),
            sorting::is_stable_order(keys@, order@),
            keys@ == time_keys(batches@),
            samples@ == order@.take(k as int).map_values(
                |i: usize| sample_of(batches@[i as int]),
            ),
        decreases order.len() - k,
    {
        samples.push(sample_of(batches[order[k]]));
        k = k + 1;
        assert(samples@ =~= order@.take(k as int).map_values(
            |i: usize| sample_of(batches@[i as int]),
        ));
    }
    assert(order@.take(order@.len() as int) =~= order@);
    assert forall|k: int, l: int| 0 <= k < l < samples.len() implies (
    #[trigger] samples[k]).timestamp_sec.le((#[trigger] samples[l]).timestamp_sec) by {
        assert(sorting::goes_before(keys@, order[k], order[l]));
        seconds_are_ordered(
            batches@[order[l] as int].timestamp,
            batches@[order[k] as int].timestamp,
        );
    }
    proof {
        sorting::stable_orders_are_sorted(keys@, order@);
        assert(order@.no_duplicates());
        assert forall|k: int, l: int| 0 <= k < l < order.len() && samples@[k].timestamp_sec
            == samples@[l].timestamp_sec implies #[trigger] order@[k] < #[trigger] order@[l] by {
            assert(keys@[order@[k] as int] == samples@[k].timestamp_sec.bits);
            assert(keys@[order@[l] as int] == samples@[l].timestamp_sec.bits);
        }
    }
    samples
}

} // verus!
