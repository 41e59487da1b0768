//! Which of the devices of a machine the tuner runs on.
use vstd::prelude::*;

use crate::number::{agree, Number};
use crate::reading::{
    is_fine, is_near, lemma_near_cancel, reads_constants, reads_integers, reads_products, size,
    Reading,
};
use crate::text::{contains, occurs, occurs_at, second_word, words};

verus! {

/// `opencl3::device::CL_DEVICE_TYPE_CPU`, the bit `1 << 1`.
#[verifier::external_body]
fn cpu_type() -> (kind: u64)
    ensures
        kind == 2,
{
    opencl3::device::CL_DEVICE_TYPE_CPU
}

/// `opencl3::device::CL_DEVICE_TYPE_GPU`, the bit `1 << 2`.
#[verifier::external_body]
fn gpu_type() -> (kind: u64)
    ensures
        kind == 4,
{
    opencl3::device::CL_DEVICE_TYPE_GPU
}

/// `opencl3::device::CL_DEVICE_TYPE_ACCELERATOR`, the bit `1 << 3`.
#[verifier::external_body]
fn accelerator_type() -> (kind: u64)
    ensures
        kind == 8,
{
    opencl3::device::CL_DEVICE_TYPE_ACCELERATOR
}

/// What `str::to_lowercase` makes of a text. It follows the Unicode tables, of
/// which nothing is stated here.
pub uninterp spec fn lowercase(s: Seq<char>) -> Seq<char>;

/// `str::to_lowercase`: the result depends on the text alone.
#[verifier::external_body]
fn to_lowercase(s: &str) -> (lower: String)
    ensures
        lower@ == lowercase(s@),
{
    s.to_lowercase()
}

/// How a device type is shown. Only a type of exactly one kind has a name.
pub open spec fn device_type_name(t: u64) -> Seq<char> {
    if t == 4 {
        "GPU"@
    } else if t == 2 {
        "CPU"@
    } else if t == 8 {
        "Accelerator"@
    } else {
        "Unknown"@
    }
}

/// How a device type is shown.
pub fn device_type_str(t: u64) -> (name: &'static str)
    ensures
        name@ == device_type_name(t),
{
    if t == gpu_type() {
        "GPU"
    } else if t == cpu_type() {
        "CPU"
    } else if t == accelerator_type() {
        "Accelerator"
    } else {
        "Unknown"
    }
}

/// `version` is the number that the second word of `s` writes, or one if there
/// is no second word or it writes no number.
pub open spec fn is_opencl_version<T: Number>(s: Seq<char>, version: T) -> bool {
    if words(s, 0).len() >= 2 {
        exists|word: &str, parsed: Option<T>|
            {
                &&& word@ == words(s, 0)[1]
                &&& #[trigger] call_ensures(T::parse, (word,), parsed)
                &&& match parsed {
                    Some(number) => version == number,
                    None => call_ensures(T::decimal, (1i32, 0i32), version),
                }
            }
    } else {
        call_ensures(T::decimal, (1i32, 0i32), version)
    }
}

/// The version that a platform names, such as 3.0 in `OpenCL 3.0 CUDA`.
pub fn parse_opencl_version<T: Number>(s: &str) -> (version: T)
    ensures
        is_opencl_version(s@, version),
{
    match second_word(s) {
        Some(word) => match T::parse(word) {
            Some(number) => number,
            None => T::decimal(1, 0),
        },
        None => T::decimal(1, 0),
    }
}

/// A text is parsed to one number, or to what is unknown, or to none at all. Single
/// precision has this.
pub open spec fn parses_alike<T: Number>(unknown: spec_fn(T) -> bool) -> bool {
    &&& forall|a: T, b: T| #[trigger]
        call_ensures(T::decimal, (1i32, 0i32), a) && #[trigger] call_ensures(
            T::decimal,
            (1i32, 0i32),
            b,
        ) ==> a == b
    &&& forall|s: &str, t: &str, a: Option<T>, b: Option<T>| #[trigger]
        call_ensures(T::parse, (s,), a) && #[trigger] call_ensures(T::parse, (t,), b) && s@ == t@
            ==> match (a, b) {
            (Some(x), Some(y)) => agree(unknown, x, y),
            (None, None) => true,
            _ => false,
        }
}

/// Only the second word has a say in the version.
pub proof fn law_second_word_decides<T: Number>(
    unknown: spec_fn(T) -> bool,
    s1: Seq<char>,
    s2: Seq<char>,
    version1: T,
    version2: T,
)
    requires
        parses_alike(unknown),
        words(s1, 0).len() >= 2,
        words(s2, 0).len() >= 2,
        words(s1, 0)[1] == words(s2, 0)[1],
        is_opencl_version(s1, version1),
        is_opencl_version(s2, version2),
    ensures
        agree(unknown, version1, version2),
{
}

/// What a version adds to the score of a device: ten times the version, rounded
/// toward zero.
pub open spec fn is_version_score<T: Number>(version: T, score: i32) -> bool {
    exists|ten: T, points: T|
        {
            &&& call_ensures(T::decimal, (10i32, 0i32), ten)
            &&& #[trigger] call_ensures(T::times, (version, ten), points)
            &&& call_ensures(T::to_i32, (points,), score)
        }
}

/// What a version adds to the score of a device.
pub fn version_score<T: Number>(version: T) -> (score: i32)
    ensures
        is_version_score(version, score),
{
    version.times(T::decimal(10, 0)).to_i32()
}

/// What a vendor adds to the score of a device, by the lower-case vendor name.
pub open spec fn vendor_points(lower: Seq<char>) -> int {
    let amd: int = if occurs(lower, "advanced micro devices"@) || occurs(lower, "amd"@) {
        1000
    } else {
        0
    };
    let nvidia: int = if occurs(lower, "nvidia"@) {
        1000
    } else {
        0
    };
    let intel: int = if occurs(lower, "intel"@) {
        500
    } else {
        0
    };
    amd + nvidia + intel
}

/// What a vendor adds to the score of a device, by the lower-case vendor name.
pub fn vendor_score(lower: &str) -> (score: i32)
    ensures
        score == vendor_points(lower@),
{
    let mut score: i32 = 0;
    if contains(lower, "advanced micro devices") || contains(lower, "amd") {
        score = score + 1000;
    }
    if contains(lower, "nvidia") {
        score = score + 1000;
    }
    if contains(lower, "intel") {
        score = score + 500;
    }
    score
}

/// The score of a device with the given lower-case vendor name.
pub open spec fn device_points(lower: Seq<char>, dtype: u64, version_score: i32) -> int {
    vendor_points(lower) + (if dtype == 4 {
        100int
    } else {
        0
    }) + version_score
}

/// The score of a device with the given lower-case vendor name, unless it goes
/// beyond 32 bits.
pub fn score_by_name(lower: &str, dtype: u64, version_score: i32) -> (score: Option<i32>)
    ensures
        match score {
            Some(score) => score == device_points(lower@, dtype, version_score),
            None => device_points(lower@, dtype, version_score) > i32::MAX,
        },
{
    let mut score: i32 = vendor_score(lower);
    if dtype == gpu_type() {
        score = score + 100;
    }
    score.checked_add(version_score)
}

/// The score of a device, unless it goes beyond 32 bits.
pub fn device_score(vendor: &str, dtype: u64, version_score: i32) -> (score: Option<i32>)
    ensures
        match score {
            Some(score) => score == device_points(lowercase(vendor@), dtype, version_score),
            None => device_points(lowercase(vendor@), dtype, version_score) > i32::MAX,
        },
{
    let lower: String = to_lowercase(vendor);
    score_by_name(lower.as_str(), dtype, version_score)
}

/// `selected` is the first of the devices with the highest score, or none if no
/// device has more than the least score there is.
pub open spec fn is_selection(scores: Seq<i32>, selected: Option<usize>) -> bool {
    match selected {
        Some(best) => {
            &&& best < scores.len()
            &&& scores[best as int] > i32::MIN
            &&& forall|d: int| 0 <= d < best ==> #[trigger] scores[d] < scores[best as int]
            &&& forall|d: int|
                best <= d < scores.len() ==> #[trigger] scores[d] <= scores[best as int]
        },
        None => forall|d: int| 0 <= d < scores.len() ==> #[trigger] scores[d] == i32::MIN,
    }
}

/// The first of the devices with the highest score, if any has more than the
/// least score there is.
pub fn select_device(scores: &[i32]) -> (selected: Option<usize>)
    ensures
        is_selection(scores@, selected),
{
    let mut best_score: i32 = i32::MIN;
    let mut selected: Option<usize> = None;
    let mut d: usize = 0;
    while d < scores.len()
        invariant
            d <= scores@.len(),
            match selected {
                Some(best) => {
                    &&& best < d
                    &&& scores@[best as int] == best_score
                    &&& best_score > i32::MIN
                    &&& forall|e: int| 0 <= e < best ==> #[trigger] scores@[e] < best_score
                    &&& forall|e: int| best <= e < d ==> #[trigger] scores@[e] <= best_score
                },
                None => {
                    &&& best_score == i32::MIN
                    &&& forall|e: int| 0 <= e < d ==> #[trigger] scores@[e] == i32::MIN
                },
            },
        decreases scores@.len() - d,
    {
        if scores[d] > best_score {
            best_score = scores[d];
            selected = Some(d);
        }
        d = d + 1;
    }
    selected
}

/// A device type of exactly one kind is shown by the name of the kind, and every
/// other as unknown.
pub proof fn law_type_is_shown_by_name(t: u64, name: &str)
    requires
        call_ensures(device_type_str, (t,), name),
    ensures
        t == 1u64 << 1 ==> name@ == "CPU"@,
        t == 1u64 << 2 ==> name@ == "GPU"@,
        t == 1u64 << 3 ==> name@ == "Accelerator"@,
        t != 1u64 << 1 && t != 1u64 << 2 && t != 1u64 << 3 ==> name@ == "Unknown"@,
{
    assert(1u64 << 1 == 2 && 1u64 << 2 == 4 && 1u64 << 3 == 8) by (bit_vector);
}

/// The version is what the second word is parsed to, or one where there is no second
/// word or it is no number.
pub proof fn law_version_is_the_second_word<T: Number>(s: &str, word: Option<&str>, version: T)
    requires
        call_ensures(parse_opencl_version::<T>, (s,), version),
        call_ensures(second_word, (s,), word),
    ensures
        match word {
            Some(text) => exists|same: &str, parsed: Option<T>|
                {
                    &&& same@ == text@
                    &&& #[trigger] call_ensures(T::parse, (same,), parsed)
                    &&& parsed matches Some(number) ==> version == number
                    &&& parsed is None ==> call_ensures(T::decimal, (1i32, 0i32), version)
                },
            None => call_ensures(T::decimal, (1i32, 0i32), version),
        },
{
}

/// A version adds ten times itself to a score, cut off to an integer toward zero, up
/// to the precision.
pub proof fn law_version_adds_ten_times_itself<T: Number>(m: Reading<T>, version: T, score: i32)
    requires
        is_fine(m),
        reads_constants(m),
        reads_products(m),
        reads_integers(m),
        (m.known)(version),
        1000 * size((m.value)(version)) <= m.top,
        size((m.value)(version)) <= 100_000_000 * m.unit,
        call_ensures(version_score::<T>, (version,), score),
    ensures
        score > 0 ==> (m.value)(version) > 0,
        score < 0 ==> (m.value)(version) < 0,
        m.precision * (size(score as int) * m.unit) <= (m.precision + 1) * (10 * size(
            (m.value)(version),
        )) + m.precision,
        (m.precision - 1) * (10 * size((m.value)(version))) - m.precision < m.precision * ((size(
            score as int,
        ) + 1) * m.unit),
{
    let p = m.precision;
    let u = m.unit;
    let v = (m.value)(version);
    let (ten, points) = choose|ten: T, points: T|
        {
            &&& call_ensures(T::decimal, (10i32, 0i32), ten)
            &&& #[trigger] call_ensures(T::times, (version, ten), points)
            &&& call_ensures(T::to_i32, (points,), score)
        };
    let x = (m.value)(points);
    let w = size(v);
    assert(v * (10 * u) == (10 * v) * u) by (nonlinear_arith);
    assert(size((10 * v) * u) <= m.top * u) by (nonlinear_arith)
        requires
            size(10 * v) <= m.top,
            u > 0,
    ;
    assert(is_near(p, x * u, (10 * v) * u, 1 * u));
    lemma_near_cancel(p, x, 10 * v, 1, u);
    let off = size(x - 10 * v);
    assert(off <= 10 * w + 1 && (off > 1 ==> off < 10 * w) && (w > 0 ==> off <= w))
        by (nonlinear_arith)
        requires
            p * off <= 10 * w + p * 1,
            w >= 0,
            p >= 1000,
            off >= 0,
    {
        if off > 10 * w + 1 {
            assert(p * off >= p * (10 * w + 2));
            assert(p * (10 * w + 2) == p * (10 * w) + 2 * p);
            assert(p * (10 * w) >= 10 * w);
        }
        if off > 1 {
            assert(p * (off - 1) <= 10 * w);
            assert(p * (off - 1) >= 1000 * (off - 1));
        }
        if off > w && w > 0 {
            assert(p * off >= p * (w + 1));
            assert(p * (w + 1) == p * w + p);
            assert(p * w >= 1000 * w);
        }
    }
    assert(p * off <= 10 * w + p);
    let s = size(score as int);
    let y = size(x);
    assert(i32::MIN * u < x < i32::MAX * u);
    assert(score * u <= x < (score + 1) * u || (score - 1) * u < x <= score * u);
    if x >= 0 {
        assert(score >= 0) by (nonlinear_arith)
            requires
                score * u <= x < (score + 1) * u,
                x >= 0,
                u > 0,
        ;
    } else {
        assert(score <= 0) by (nonlinear_arith)
            requires
                (score - 1) * u < x <= score * u,
                x < 0,
                u > 0,
        ;
        assert((s + 1) * u == -((score - 1) * u) && s * u == -(score * u)) by (nonlinear_arith)
            requires
                s == -score,
        ;
    }
    assert(s * u <= y < (s + 1) * u);
    if score != 0 {
        assert(y >= u) by (nonlinear_arith)
            requires
                s * u <= y,
                s >= 1,
                u > 0,
        ;
    }
    let low = s * u;
    let high = (s + 1) * u;
    assert(p * low <= (p + 1) * (10 * w) + p && (p - 1) * (10 * w) - p < p * high)
        by (nonlinear_arith)
        requires
            p * off <= 10 * w + p,
            y <= 10 * w + off,
            10 * w <= y + off,
            low <= y < high,
            p >= 1000,
    {
        assert(p * low <= p * y);
        assert(p * y < p * high);
        assert(p * y <= p * (10 * w + off));
        assert(p * (10 * w) <= p * (y + off));
        assert(p * (10 * w + off) == p * (10 * w) + p * off);
        assert(p * (y + off) == p * y + p * off);
    }
}

/// A vendor adds a thousand where its name contains one of those of AMD, a thousand
/// where it contains that of NVIDIA and five hundred where it contains that of Intel.
pub proof fn law_vendor_adds_up(lower: &str, score: i32)
    requires
        call_ensures(vendor_score, (lower,), score),
    ensures
        score == (if is_within("advanced micro devices"@, lower@) || is_within("amd"@, lower@) {
            1000int
        } else {
            0
        }) + (if is_within("nvidia"@, lower@) {
            1000int
        } else {
            0
        }) + (if is_within("intel"@, lower@) {
            500int
        } else {
            0
        }),
{
    lemma_occurs_within(lower@, "advanced micro devices"@);
    lemma_occurs_within(lower@, "amd"@);
    lemma_occurs_within(lower@, "nvidia"@);
    lemma_occurs_within(lower@, "intel"@);
}

/// The score of a device adds up what its vendor name contains, what kind of device
/// it is and its version: a thousand for AMD under either of its names, a thousand
/// for NVIDIA, five hundred for Intel, and a hundred for a GPU. There is no score if
/// that goes beyond 32 bits.
pub proof fn law_score_adds_up(lower: &str, dtype: u64, version_score: i32, score: Option<i32>)
    requires
        call_ensures(score_by_name, (lower, dtype, version_score), score),
    ensures
        ({
            let amd = is_within("advanced micro devices"@, lower@) || is_within("amd"@, lower@);
            let nvidia = is_within("nvidia"@, lower@);
            let intel = is_within("intel"@, lower@);
            let sum = version_score + (if amd {
                1000int
            } else {
                0
            }) + (if nvidia {
                1000int
            } else {
                0
            }) + (if intel {
                500int
            } else {
                0
            }) + (if dtype == 4 {
                100int
            } else {
                0
            });
            match score {
                Some(found) => found == sum,
                None => sum > i32::MAX,
            }
        }),
{
    lemma_occurs_within(lower@, "advanced micro devices"@);
    lemma_occurs_within(lower@, "amd"@);
    lemma_occurs_within(lower@, "nvidia"@);
    lemma_occurs_within(lower@, "intel"@);
}

/// The score of a device is that of its vendor name in lower case.
pub proof fn law_score_ignores_case(
    vendor: &str,
    lower: &str,
    dtype: u64,
    version_score: i32,
    score: Option<i32>,
    same: Option<i32>,
)
    requires
        lower@ == lowercase(vendor@),
        call_ensures(device_score, (vendor, dtype, version_score), score),
        call_ensures(score_by_name, (lower, dtype, version_score), same),
    ensures
        score == same,
{
}

/// `part` stands somewhere in `whole`.
pub open spec fn is_within(part: Seq<char>, whole: Seq<char>) -> bool {
    exists|before: Seq<char>, after: Seq<char>| whole == #[trigger] (before + part + after)
}

/// A text that occurs stands somewhere within.
proof fn lemma_occurs_within(s: Seq<char>, pattern: Seq<char>)
    ensures
        occurs(s, pattern) == is_within(pattern, s),
{
    if occurs(s, pattern) {
        let place = choose|place: int| occurs_at(s, pattern, place);
        let before = s.take(place);
        let after = s.skip(place + pattern.len());
        assert(s =~= before + pattern + after);
    }
    if is_within(pattern, s) {
        let (before, after) = choose|before: Seq<char>, after: Seq<char>|
            s == #[trigger] (before + pattern + after);
        assert(s.subrange(before.len() as int, (before.len() + pattern.len()) as int) =~= pattern);
        assert(occurs_at(s, pattern, before.len() as int));
    }
}

/// The selected device has the highest score, and is the first that has it. No
/// device is selected only where none has more than the least score there is.
pub proof fn law_selected_device_scores_highest(scores: &[i32], selected: Option<usize>, d: int)
    requires
        call_ensures(select_device, (scores,), selected),
        0 <= d < scores@.len(),
    ensures
        selected matches Some(best) ==> {
            &&& best < scores@.len()
            &&& scores@[d] <= scores@[best as int]
            &&& scores@[d] == scores@[best as int] ==> best <= d
            &&& scores@[best as int] > i32::MIN
        },
        selected is None ==> scores@[d] == i32::MIN,
{
}

} // verus!
