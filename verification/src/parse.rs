//! Parsers for the external trace formats, working on plain text lines: the
//! CDN trace (`seconds.nanoseconds;key;...`), the per-line timestamp files,
//! and the block-storage traces. Number parsing is verified against an exact
//! decimal-value specification.
use vstd::prelude::*;

use crate::RequestEvent;
use crate::TimeUnit;
use vstd::hash_map::HashMapWithView;
use vstd::string::StringSliceAdditionalSpecFns;

verus! {

broadcast use vstd::std_specs::vec::group_vec_axioms;

/// An ASCII decimal digit.
pub open spec fn is_digit(b: u8) -> bool {
    48 <= b <= 57
}

/// Whether `b` consists of digits only (and at least one).
pub open spec fn all_digits(b: Seq<u8>) -> bool {
    b.len() >= 1 && forall|i: int| 0 <= i < b.len() ==> is_digit(#[trigger] b[i])
}

/// The value of a digit string, most significant digit first.
pub open spec fn dec_val(b: Seq<u8>) -> int
    decreases b.len(),
{
    if b.len() == 0 {
        0
    } else {
        dec_val(b.drop_last()) * 10 + (b.last() - 48)
    
    }
}

proof fn lemma_dec_val_nonneg(b: Seq<u8>)
    requires
        forall|k: int| 0 <= k < b.len() ==> is_digit(#[trigger] b[k]),
    ensures
        dec_val(b) >= 0,
    decreases b.len(),
{
    if b.len() > 0 {
        let init = b.drop_last();
        assert(forall|k: int| 0 <= k < init.len() ==> is_digit(#[trigger] init[k])) by {
            assert forall|k: int| 0 <= k < init.len() implies is_digit(#[trigger] init[k]) by {
                assert(init[k] == b[k]);
            }
        }
        lemma_dec_val_nonneg(init);
        assert(dec_val(init) * 10 >= 0) by (nonlinear_arith)
            requires
                dec_val(init) >= 0,
        ;
        assert(is_digit(b.last()));
    }
}

proof fn lemma_dec_val_monotone(b: Seq<u8>, i: int, j: int)
    requires
        0 <= i <= j <= b.len(),
        forall|k: int| 0 <= k < b.len() ==> is_digit(#[trigger] b[k]),
    ensures
        dec_val(b.take(i)) <= dec_val(b.take(j)),
    decreases j - i,
{
    if i < j {
        lemma_dec_val_monotone(b, i, j - 1);
        let t = b.take(j);
        assert(t.drop_last() =~= b.take(j - 1));
        assert(is_digit(t.last()));
        assert(dec_val(b.take(j)) == dec_val(b.take(j - 1)) * 10 + (t.last() - 48));
        assert(forall|k: int| 0 <= k < b.take(j - 1).len() ==> is_digit(
            #[trigger] b.take(j - 1)[k],
        )) by {
            assert forall|k: int| 0 <= k < b.take(j - 1).len() implies is_digit(
                #[trigger] b.take(j - 1)[k],
            ) by {
                assert(b.take(j - 1)[k] == b[k]);
            }
        }
        lemma_dec_val_nonneg(b.take(j - 1));
        assert(dec_val(b.take(j - 1)) * 10 >= dec_val(b.take(j - 1))) by (nonlinear_arith)
            requires
                dec_val(b.take(j - 1)) >= 0,
        ;
    }
}

/// The position of the first `sep` at or after `from`, if any.
pub open spec fn first_index_of(b: Seq<u8>, from: int, sep: u8) -> Option<int>
    decreases b.len() - from,
{
    if from < 0 || from >= b.len() {
        None
    } else if b[from] == sep {
        Some(from)
    } else {
        first_index_of(b, from + 1, sep)
    }
}

/// Find the first `sep` at or after `from`.
pub fn find_byte(b: &[u8], from: usize, sep: u8) -> (r: Option<usize>)
    requires
        from <= b@.len(),
    ensures
        match r {
            Some(i) => first_index_of(b@, from as int, sep) == Some(i as int) && from <= i
                < b@.len() && b@[i as int] == sep,
            None => first_index_of(b@, from as int, sep) is None,
        },
{
    let mut i = from;
    while i < b.len()
        invariant
            from <= i <= b@.len(),
            first_index_of(b@, from as int, sep) == first_index_of(b@, i as int, sep),
            forall|j: int| from <= j < i ==> b@[j] != sep,
        decreases b@.len() - i,
    {
        if b[i] == sep {
            return Some(i);
        }
        i += 1;
    }
    None
}

/// Parse the digits of `b[start..end]` as a decimal number: the value when
/// the range is a nonempty run of digits whose value fits `u128`, `None`
/// otherwise.
pub fn parse_u128_digits(b: &[u8], start: usize, end: usize) -> (r: Option<u128>)
    requires
        start <= end <= b@.len(),
    ensures
        match r {
            Some(v) => all_digits(b@.subrange(start as int, end as int)) && v == dec_val(
                b@.subrange(start as int, end as int),
            ),
            None => !(all_digits(b@.subrange(start as int, end as int)) && dec_val(
                b@.subrange(start as int, end as int),
            ) <= u128::MAX),
        },
{
    let ghost whole = b@.subrange(start as int, end as int);
    if start == end {
        return None;
    }
    let mut acc: u128 = 0;
    let mut i = start;
    while i < end
        invariant
            start <= i <= end <= b@.len(),
            whole == b@.subrange(start as int, end as int),
            whole.len() == end - start,
            forall|j: int| 0 <= j < i - start ==> is_digit(#[trigger] whole[j]),
            acc == dec_val(whole.take(i - start)),
        decreases end - i,
    {
        let c = b[i];
        if c < 48 || c > 57 {
            proof {
                assert(whole[i - start] == c);
                assert(!all_digits(whole));
            }
            return None;
        }
        let d = (c - 48) as u128;
        let next = acc.checked_mul(10);
        match next {
            Some(m) => {
                match m.checked_add(d) {
                    Some(a) => {
                        acc = a;
                        proof {
                            assert(whole.take(i - start + 1).drop_last() =~= whole.take(
                                i - start,
                            ));
                            assert(whole.take(i - start + 1).last() == whole[i - start]);
                        }
                    },
                    None => {
                        proof {
                            lemma_overflow(whole, i - start, b@, start as int, end as int);
                        }
                        return None;
                    },
                }
            },
            None => {
                proof {
                    lemma_overflow(whole, i - start, b@, start as int, end as int);
                }
                return None;
            },
        }
        i += 1;
    }
    proof {
        assert(whole.take(end - start) =~= whole);
    }
    Some(acc)
}

/// When one more digit no longer fits, the whole run's value does not fit.
proof fn lemma_overflow(whole: Seq<u8>, upto: int, b: Seq<u8>, start: int, end: int)
    requires
        whole == b.subrange(start, end),
        0 <= upto < whole.len(),
        forall|j: int| 0 <= j < upto ==> is_digit(#[trigger] whole[j]),
        is_digit(whole[upto]),
        dec_val(whole.take(upto)) * 10 + (whole[upto] - 48) > u128::MAX,
    ensures
        all_digits(whole) ==> dec_val(whole) > u128::MAX,
{
    if all_digits(whole) {
        assert(whole.take(upto + 1).drop_last() =~= whole.take(upto));
        assert(whole.take(upto + 1).last() == whole[upto]);
        assert(dec_val(whole.take(upto + 1)) > u128::MAX);
        lemma_dec_val_monotone(whole, upto + 1, whole.len() as int);
        assert(whole.take(whole.len() as int) =~= whole);
    }
}

/// Parse `b[start..end]` as a decimal `u64`.
pub fn parse_u64_digits(b: &[u8], start: usize, end: usize) -> (r: Option<u64>)
    requires
        start <= end <= b@.len(),
    ensures
        match r {
            Some(v) => all_digits(b@.subrange(start as int, end as int)) && v == dec_val(
                b@.subrange(start as int, end as int),
            ),
            None => !(all_digits(b@.subrange(start as int, end as int)) && dec_val(
                b@.subrange(start as int, end as int),
            ) <= u64::MAX),
        },
{
    match parse_u128_digits(b, start, end) {
        Some(v) => {
            if v <= u64::MAX as u128 {
                Some(v as u64)
            } else {
                None
            }
        },
        None => None,
    }
}

/// Parse `b[start..end]` as a decimal `u32`.
pub fn parse_u32_digits(b: &[u8], start: usize, end: usize) -> (r: Option<u32>)
    requires
        start <= end <= b@.len(),
    ensures
        match r {
            Some(v) => all_digits(b@.subrange(start as int, end as int)) && v == dec_val(
                b@.subrange(start as int, end as int),
            ),
            None => !(all_digits(b@.subrange(start as int, end as int)) && dec_val(
                b@.subrange(start as int, end as int),
            ) <= u32::MAX),
        },
{
    match parse_u128_digits(b, start, end) {
        Some(v) => {
            if v <= u32::MAX as u128 {
                Some(v as u32)
            } else {
                None
            }
        },
        None => None,
    }
}

/// A point in time as the external traces state it: whole seconds and the
/// nanoseconds within the current second.
#[derive(Debug, Eq, PartialEq, Clone, Copy, Structural)]
pub struct TraceDuration {
    pub secs: u64,
    pub nanos: u32,
}

impl TraceDuration {
    /// The nanosecond part stays below one second.
    pub open spec fn wf(&self) -> bool {
        self.nanos < 1_000_000_000
    }

    pub open spec fn spec_secs(&self) -> u64 {
        self.secs
    }

    pub open spec fn spec_nanos(&self) -> u32 {
        self.nanos
    }

    /// A duration of `secs` seconds plus `nanos` nanoseconds; full seconds
    /// among the nanoseconds carry over.
    pub fn new(secs: u64, nanos: u32) -> (r: Self)
        requires
            secs + nanos as int / 1_000_000_000 <= u64::MAX,
        ensures
            r.wf(),
            r.spec_secs() == secs + nanos as int / 1_000_000_000,
            r.spec_nanos() == nanos as int % 1_000_000_000,
    {
        TraceDuration { secs: secs + (nanos / 1_000_000_000) as u64, nanos: nanos % 1_000_000_000 }
    }

    /// The whole seconds.
    pub fn as_secs(&self) -> (r: u64)
        ensures
            r == self.spec_secs(),
    {
        self.secs
    }

    /// The nanoseconds within the current second.
    pub fn subsec_nanos(&self) -> (r: u32)
        ensures
            r == self.spec_nanos(),
    {
        self.nanos
    }

    /// The whole duration in nanoseconds.
    pub fn as_nanos(&self) -> (r: u128)
        ensures
            r == self.spec_secs() * 1_000_000_000 + self.spec_nanos(),
    {
        proof {
            assert((self.secs as u128) * 1_000_000_000 + self.nanos <= u128::MAX)
                by (nonlinear_arith)
                requires
                    self.secs <= u64::MAX,
                    self.nanos <= u32::MAX,
            ;
        }
        (self.secs as u128) * 1_000_000_000 + (self.nanos as u128)
    }

    /// A duration of whole microseconds.
    pub fn from_micros(micros: u64) -> (r: Self)
        ensures
            r.wf(),
            r.spec_secs() == micros as int / 1_000_000,
            r.spec_nanos() == (micros as int % 1_000_000) * 1000,
    {
        TraceDuration { secs: micros / 1_000_000, nanos: (micros % 1_000_000) as u32 * 1000 }
    }
}

/// A raw trace record before key remapping: an external request identity and
/// the moment it was made.
#[derive(Debug, Eq, PartialEq, Clone, Copy, Structural)]
pub struct RawRequestWithTimestamp<T> {
    pub request: T,
    pub timestamp: TraceDuration,
}

/// A block-storage request identity in the disk traces.
#[derive(Debug, Clone, Copy, PartialEq, Eq, Structural)]
pub struct MsrBlockIoRequest {
    pub offset: u64,
    pub disk_num: u32,
}

/// A block identity in the file-server traces.
#[derive(Debug, Clone, Copy, Eq, PartialEq, Structural)]
pub struct BlockId {
    pub irp_ptr: u64,
    pub disk_num: u32,
}


/// What a CDN trace line yields: the first field split as
/// `seconds.nanoseconds` and the second field as the object key, each a
/// decimal run that fits its type, or nothing when the line has another
/// shape. The seconds carry any whole seconds among the nanoseconds.
pub open spec fn cdn_line_spec(b: Seq<u8>) -> Option<(u64, u32, u128)> {
    match first_index_of(b, 0, 59) {
        Some(p1) => match first_index_of(b, 0, 46) {
            Some(pd) => {
                if pd < p1 {
                    let nsec_end = match first_index_of(b, pd + 1, 46) {
                        Some(pd2) => if pd2 < p1 {
                            pd2
                        } else {
                            p1
                        },
                        None => p1,
                    };
                    let id_end = match first_index_of(b, p1 + 1, 59) {
                        Some(p2) => p2,
                        None => b.len() as int,
                    };
                    let sec_b = b.subrange(0, pd);
                    let nsec_b = b.subrange(pd + 1, nsec_end);
                    let id_b = b.subrange(p1 + 1, id_end);
                    if all_digits(sec_b) && dec_val(sec_b) <= u64::MAX && all_digits(nsec_b)
                        && dec_val(nsec_b) <= u32::MAX && all_digits(id_b) && dec_val(id_b)
                        <= u128::MAX && dec_val(sec_b) + dec_val(nsec_b) / 1_000_000_000
                        <= u64::MAX {
                        Some(
                            (
                                dec_val(sec_b) as u64,
                                dec_val(nsec_b) as u32,
                                dec_val(id_b) as u128,
                            ),
                        )
                    } else {
                        None
                    }
                } else {
                    None
                }
            },
            None => None,
        },
        None => None,
    }
}

/// Parse one CDN trace line, `seconds.nanoseconds;key;...`: the key and the
/// request time, or `None` when the line has another shape.
pub fn line_to_request(line: &str) -> (r: Option<RawRequestWithTimestamp<u128>>)
    ensures
        match r {
            Some(rr) => cdn_line_spec(line.spec_bytes()) matches Some(t) && rr.request == t.2
                && rr.timestamp.wf() && rr.timestamp.spec_secs() == t.0 + t.1 / 1_000_000_000
                && rr.timestamp.spec_nanos() == t.1 % 1_000_000_000,
            None => cdn_line_spec(line.spec_bytes()) is None,
        },
{
    let b = line.as_bytes();
    let n = b.len();
    let p1 = match find_byte(b, 0, 59) {
        Some(p) => p,
        None => {
            return None;
        },
    };
    let pd = match find_byte(b, 0, 46) {
        Some(p) => p,
        None => {
            return None;
        },
    };
    if pd >= p1 {
        return None;
    }
    let nsec_end = match find_byte(b, pd + 1, 46) {
        Some(pd2) => if pd2 < p1 {
            pd2
        } else {
            p1
        },
        None => p1,
    };
    let id_end = match find_byte(b, p1 + 1, 59) {
        Some(p2) => p2,
        None => b.len(),
    };
    let sec = match parse_u64_digits(b, 0, pd) {
        Some(v) => v,
        None => {
            return None;
        },
    };
    let nsec = match parse_u32_digits(b, pd + 1, nsec_end) {
        Some(v) => v,
        None => {
            return None;
        },
    };
    let id = match parse_u128_digits(b, p1 + 1, id_end) {
        Some(v) => v,
        None => {
            return None;
        },
    };
    if sec > u64::MAX - (nsec / 1_000_000_000) as u64 {
        return None;
    }
    Some(RawRequestWithTimestamp { request: id, timestamp: TraceDuration::new(sec, nsec) })
}

/// The parse of every line that is a well-formed CDN trace line, in order.
pub open spec fn cdn_requests_of(lines: Seq<Seq<u8>>) -> Seq<RawRequestWithTimestamp<u128>>
    decreases lines.len(),
{
    if lines.len() == 0 {
        Seq::empty()
    } else {
        cdn_requests_of(lines.drop_last()) + (match cdn_line_spec(lines.last()) {
            Some(t) => seq![
                RawRequestWithTimestamp {
                    request: t.2,
                    timestamp: TraceDuration {
                        secs: (t.0 + t.1 / 1_000_000_000) as u64,
                        nanos: (t.1 % 1_000_000_000) as u32,
                    },
                },
            ],
            None => Seq::empty(),
        })
    }
}

/// The byte form of each line.
pub open spec fn lines_bytes(lines: Seq<String>) -> Seq<Seq<u8>> {
    Seq::new(lines.len(), |i: int| vstd::utf8::encode_utf8(lines[i]@))
}

/// Parse a CDN trace given as its lines: every line of the
/// `seconds.nanoseconds;key;...` shape yields a request, other lines are
/// skipped.
pub fn read_cdn_requests(lines: &Vec<String>) -> (r: Vec<RawRequestWithTimestamp<u128>>)
    ensures
        r@ == cdn_requests_of(lines_bytes(lines@)),
{
    let mut out: Vec<RawRequestWithTimestamp<u128>> = Vec::new();
    let mut i: usize = 0;
    while i < lines.len()
        invariant
            i <= lines@.len(),
            out@ == cdn_requests_of(lines_bytes(lines@).take(i as int)),
        decreases lines@.len() - i,
    {
        let line: &String = &lines[i];
        let ls = line.as_str();
        match line_to_request(ls) {
            Some(rr) => {
                out.push(rr);
            },
            None => {},
        }
        proof {
            let lb = lines_bytes(lines@);
            assert(lb.take(i + 1).drop_last() =~= lb.take(i as int));
            assert(lb.take(i + 1).last() == lb[i as int]);
            assert(ls.spec_bytes() == lb[i as int]);
            match cdn_line_spec(lb[i as int]) {
                Some(t) => {
                    assert(out@ =~= cdn_requests_of(lb.take(i as int)) + seq![
                        RequestWithTs_helper(t),
                    ]);
                },
                None => {
                    assert(cdn_requests_of(lb.take(i + 1)) =~= cdn_requests_of(lb.take(i as int))
                        + Seq::empty());
                },
            }
        }
        i += 1;
    }
    proof {
        assert(lines_bytes(lines@).take(lines@.len() as int) =~= lines_bytes(lines@));
    }
    out
}

/// The record one parsed CDN line yields.
pub open spec fn RequestWithTs_helper(t: (u64, u32, u128)) -> RawRequestWithTimestamp<u128> {
    RawRequestWithTimestamp {
        request: t.2,
        timestamp: TraceDuration {
            secs: (t.0 + t.1 / 1_000_000_000) as u64,
            nanos: (t.1 % 1_000_000_000) as u32,
        },
    }
}

/// What a block-storage trace line yields: seven or more comma-separated
/// fields, of which the timestamp (in 100-nanosecond ticks since the
/// Windows epoch, at least the Unix epoch), the disk number and the byte
/// offset are decimal runs that fit their types.
pub open spec fn msr_line_spec(b: Seq<u8>) -> Option<(u64, u32, u64)> {
    let c = 44u8;
    match first_index_of(b, 0, c) {
        Some(p0) => match first_index_of(b, p0 + 1, c) {
            Some(p1) => match first_index_of(b, p1 + 1, c) {
                Some(p2) => match first_index_of(b, p2 + 1, c) {
                    Some(p3) => match first_index_of(b, p3 + 1, c) {
                        Some(p4) => match first_index_of(b, p4 + 1, c) {
                            Some(p5) => {
                                let ts_b = b.subrange(0, p0);
                                let disk_b = b.subrange(p1 + 1, p2);
                                let off_b = b.subrange(p3 + 1, p4);
                                if all_digits(ts_b) && dec_val(ts_b) <= u64::MAX && all_digits(
                                    disk_b,
                                ) && dec_val(disk_b) <= u32::MAX && all_digits(off_b) && dec_val(
                                    off_b,
                                ) <= u64::MAX && dec_val(ts_b) / 10_000_000 >= 11_644_473_600 {
                                    Some(
                                        (
                                            dec_val(ts_b) as u64,
                                            dec_val(disk_b) as u32,
                                            dec_val(off_b) as u64,
                                        ),
                                    )
                                } else {
                                    None
                                }
                            },
                            None => None,
                        },
                        None => None,
                    },
                    None => None,
                },
                None => None,
            },
            None => None,
        },
        None => None,
    }
}

/// Parse one block-storage trace line: the block identity and the request
/// time, converted from Windows filetime ticks to Unix seconds and
/// nanoseconds.
pub fn parse_line(line: &str) -> (r: Option<RawRequestWithTimestamp<MsrBlockIoRequest>>)
    ensures
        match r {
            Some(rr) => msr_line_spec(line.spec_bytes()) matches Some(t) && rr.request
                == (MsrBlockIoRequest { offset: t.2, disk_num: t.1 }) && rr.timestamp.wf()
                && rr.timestamp.spec_secs() == t.0 as int / 10_000_000 - 11_644_473_600
                && rr.timestamp.spec_nanos() == (t.0 as int % 10_000_000) * 100,
            None => msr_line_spec(line.spec_bytes()) is None,
        },
{
    let b = line.as_bytes();
    let n = b.len();
    let c = 44u8;
    let p0 = match find_byte(b, 0, c) {
        Some(p) => p,
        None => {
            return None;
        },
    };
    let p1 = match find_byte(b, p0 + 1, c) {
        Some(p) => p,
        None => {
            return None;
        },
    };
    let p2 = match find_byte(b, p1 + 1, c) {
        Some(p) => p,
        None => {
            return None;
        },
    };
    let p3 = match find_byte(b, p2 + 1, c) {
        Some(p) => p,
        None => {
            return None;
        },
    };
    let p4 = match find_byte(b, p3 + 1, c) {
        Some(p) => p,
        None => {
            return None;
        },
    };
    let p5 = match find_byte(b, p4 + 1, c) {
        Some(p) => p,
        None => {
            return None;
        },
    };
    let ts = match parse_u64_digits(b, 0, p0) {
        Some(v) => v,
        None => {
            return None;
        },
    };
    let disk_num = match parse_u32_digits(b, p1 + 1, p2) {
        Some(v) => v,
        None => {
            return None;
        },
    };
    let offset = match parse_u64_digits(b, p3 + 1, p4) {
        Some(v) => v,
        None => {
            return None;
        },
    };
    if ts / 10_000_000 < 11_644_473_600 {
        return None;
    }
    let secs = ts / 10_000_000 - 11_644_473_600;
    let nanos = ((ts % 10_000_000) * 100) as u32;
    Some(
        RawRequestWithTimestamp {
            request: MsrBlockIoRequest { offset, disk_num },
            timestamp: TraceDuration { secs, nanos },
        },
    )
}

/// The parse of every well-formed block-storage trace line, in order.
pub open spec fn msr_requests_of(lines: Seq<Seq<u8>>) -> Seq<
    RawRequestWithTimestamp<MsrBlockIoRequest>,
>
    decreases lines.len(),
{
    if lines.len() == 0 {
        Seq::empty()
    } else {
        msr_requests_of(lines.drop_last()) + (match msr_line_spec(lines.last()) {
            Some(t) => seq![
                RawRequestWithTimestamp {
                    request: MsrBlockIoRequest { offset: t.2, disk_num: t.1 },
                    timestamp: TraceDuration {
                        secs: (t.0 as int / 10_000_000 - 11_644_473_600) as u64,
                        nanos: ((t.0 as int % 10_000_000) * 100) as u32,
                    },
                },
            ],
            None => Seq::empty(),
        })
    }
}

/// Parse a block-storage trace given as its lines: every well-formed line
/// yields a request, other lines are skipped.
pub fn read_msr_cambridge_requests(lines: &Vec<String>) -> (r: Vec<
    RawRequestWithTimestamp<MsrBlockIoRequest>,
>)
    ensures
        r@ == msr_requests_of(lines_bytes(lines@)),
{
    let mut out: Vec<RawRequestWithTimestamp<MsrBlockIoRequest>> = Vec::new();
    let mut i: usize = 0;
    while i < lines.len()
        invariant
            i <= lines@.len(),
            out@ == msr_requests_of(lines_bytes(lines@).take(i as int)),
        decreases lines@.len() - i,
    {
        let line: &String = &lines[i];
        let ls = line.as_str();
        match parse_line(ls) {
            Some(rr) => {
                out.push(rr);
            },
            None => {},
        }
        proof {
            let lb = lines_bytes(lines@);
            assert(lb.take(i + 1).drop_last() =~= lb.take(i as int));
            assert(lb.take(i + 1).last() == lb[i as int]);
            assert(ls.spec_bytes() == lb[i as int]);
            match msr_line_spec(lb[i as int]) {
                Some(t) => {
                    assert(out@ =~= msr_requests_of(lb.take(i + 1)));
                },
                None => {
                    assert(msr_requests_of(lb.take(i + 1)) =~= msr_requests_of(lb.take(i as int))
                        + Seq::empty());
                },
            }
        }
        i += 1;
    }
    proof {
        assert(lines_bytes(lines@).take(lines@.len() as int) =~= lines_bytes(lines@));
    }
    out
}


/// The fold that turns raw trace records into dense trace events, reading a
/// prefix of the records: the key remap built so far, the next fresh id, the
/// timestamp (in nanoseconds) of the last accepted record (negative before
/// any), the rebased relative time, and the events emitted so far. A record
/// older than the last accepted one is dropped outright, consuming no id;
/// otherwise its key gets the existing id or the next fresh one, and the
/// relative time advances by the gap (wrapping as a 64-bit value).
pub open spec fn remap_fold(raw: Seq<RawRequestWithTimestamp<u128>>, i: int) -> (
    Map<u128, u64>,
    int,
    int,
    u64,
    Seq<RequestEvent<crate::RequestId>>,
)
    decreases i,
{
    if i <= 0 {
        (Map::<u128, u64>::empty(), 0int, -1int, 0u64, Seq::<RequestEvent<crate::RequestId>>::empty())
    } else {
        let prev = remap_fold(raw, i - 1);
        let ids = prev.0;
        let nid = prev.1;
        let last = prev.2;
        let rel = prev.3;
        let out = prev.4;
        let r = raw[i - 1];
        let ts = r.timestamp.spec_secs() * 1_000_000_000 + r.timestamp.spec_nanos();
        if last >= 0 && ts < last {
            prev
        } else {
            let rel2 = if last >= 0 {
                vstd::wrapping::u64_specs::wrapping_add(rel, (ts - last) as u64)
            } else {
                rel
            };
            if ids.dom().contains(r.request) {
                (ids, nid, ts, rel2, out.push(RequestEvent { key: ids[r.request], timestamp: rel2 }))
            } else {
                (
                    ids.insert(r.request, nid as u64),
                    nid + 1,
                    ts,
                    rel2,
                    out.push(RequestEvent { key: nid as u64, timestamp: rel2 }),
                )
            }
        }
    }
}

/// Turn raw trace records into dense trace events: keys are renumbered from
/// zero in order of first appearance, timestamps are rebased to the first
/// accepted record and made relative, and out-of-order records are dropped
/// before any id is assigned.
pub fn remap_requests(raw: &Vec<RawRequestWithTimestamp<u128>>) -> (r: Vec<
    RequestEvent<crate::RequestId>,
>)
    requires
        raw@.len() < u64::MAX,
    ensures
        r@ == remap_fold(raw@, raw@.len() as int).4,
{
    broadcast use vstd::std_specs::hash::group_hash_axioms;

    let mut ids: HashMapWithView<u128, u64> = HashMapWithView::new();
    let mut next_id: u64 = 0;
    let mut have_last: bool = false;
    let mut last: u128 = 0;
    let mut rel: u64 = 0;
    let mut out: Vec<RequestEvent<crate::RequestId>> = Vec::new();
    let mut i: usize = 0;
    while i < raw.len()
        invariant
            i <= raw@.len(),
            raw@.len() < u64::MAX,
            ({
                let c = remap_fold(raw@, i as int);
                &&& ids@ == c.0
                &&& next_id == c.1
                &&& next_id <= i
                &&& (if have_last {
                    last as int == c.2
                } else {
                    c.2 == -1
                })
                &&& rel == c.3
                &&& out@ == c.4
            }),
        decreases raw@.len() - i,
    {
        let r = raw[i];
        let ts = r.timestamp.as_nanos();
        if have_last && ts < last {
            proof {
                assert(remap_fold(raw@, i + 1) == remap_fold(raw@, i as int));
            }
        } else {
            if have_last {
                rel = rel.wrapping_add((ts - last) as u64);
            }
            have_last = true;
            last = ts;
            let key = match ids.get(&r.request) {
                Some(id) => *id,
                None => {
                    let id = next_id;
                    ids.insert(r.request, id);
                    next_id = next_id + 1;
                    id
                },
            };
            out.push(RequestEvent { key, timestamp: rel });
        }
        i += 1;
    }
    out
}

/// What a duration with an optional unit suffix denotes in nanoseconds:
/// a decimal run scaled by `ns`, `us`, `ms` or `s`, bare digits meaning
/// nanoseconds; nothing when the digits are missing, malformed, or the
/// scaled value does not fit.
pub open spec fn time_unit_spec(b: Seq<u8>) -> Option<u64> {
    if b.len() >= 2 && b[b.len() - 2] == 110 && b[b.len() - 1] == 115 {
        scaled_value(b.take(b.len() - 2), 1)
    } else if b.len() >= 2 && b[b.len() - 2] == 117 && b[b.len() - 1] == 115 {
        scaled_value(b.take(b.len() - 2), 1_000)
    } else if b.len() >= 2 && b[b.len() - 2] == 109 && b[b.len() - 1] == 115 {
        scaled_value(b.take(b.len() - 2), 1_000_000)
    } else if b.len() >= 1 && b[b.len() - 1] == 115 {
        scaled_value(b.take(b.len() - 1), 1_000_000_000)
    } else {
        scaled_value(b, 1)
    }
}

/// The value of a digit run scaled by a unit, when it fits a `u64`.
pub open spec fn scaled_value(d: Seq<u8>, m: int) -> Option<u64> {
    if all_digits(d) && dec_val(d) * m <= u64::MAX && dec_val(d) <= u64::MAX {
        Some((dec_val(d) * m) as u64)
    } else {
        None
    }
}

/// Parse a duration such as `300ns`, `250us`, `2ms` or `1s` (bare digits are
/// nanoseconds) into nanoseconds.
pub fn parse_time_unit(s: &str) -> (r: Option<u64>)
    ensures
        r == time_unit_spec(s.spec_bytes()),
{
    let b = s.as_bytes();
    let n = b.len();
    let (digits_end, mult): (usize, u64) = if n >= 2 && b[n - 2] == 110 && b[n - 1] == 115 {
        (n - 2, 1)
    } else if n >= 2 && b[n - 2] == 117 && b[n - 1] == 115 {
        (n - 2, 1_000)
    } else if n >= 2 && b[n - 2] == 109 && b[n - 1] == 115 {
        (n - 2, 1_000_000)
    } else if n >= 1 && b[n - 1] == 115 {
        (n - 1, 1_000_000_000)
    } else {
        (n, 1)
    };
    proof {
        assert(b@.subrange(0, digits_end as int) =~= b@.take(digits_end as int));
    }
    let r = match parse_u64_digits(b, 0, digits_end) {
        Some(v) => {
            match v.checked_mul(mult) {
                Some(scaled) => Some(scaled),
                None => {
                    proof {
                        lemma_dec_val_nonneg(b@.take(digits_end as int));
                    }
                    None
                },
            }
        },
        None => None,
    };
    proof {
        let d = b@.take(digits_end as int);
        assert(r == scaled_value(d, mult as int));
        if b@.len() >= 2 && b@[b@.len() - 2] == 110 && b@[b@.len() - 1] == 115 {
            assert(digits_end == n - 2 && mult == 1);
            assert(time_unit_spec(b@) == scaled_value(d, 1));
        } else if b@.len() >= 2 && b@[b@.len() - 2] == 117 && b@[b@.len() - 1] == 115 {
            assert(digits_end == n - 2 && mult == 1_000);
            assert(time_unit_spec(b@) == scaled_value(d, 1_000));
        } else if b@.len() >= 2 && b@[b@.len() - 2] == 109 && b@[b@.len() - 1] == 115 {
            assert(digits_end == n - 2 && mult == 1_000_000);
            assert(time_unit_spec(b@) == scaled_value(d, 1_000_000));
        } else if b@.len() >= 1 && b@[b@.len() - 1] == 115 {
            assert(digits_end == n - 1 && mult == 1_000_000_000);
            assert(time_unit_spec(b@) == scaled_value(d, 1_000_000_000));
        } else {
            assert(digits_end == n && mult == 1);
            assert(b@.take(n as int) =~= b@);
            assert(time_unit_spec(b@) == scaled_value(b@, 1));
        }
    }
    r
}

/// The experiment description for network traces: the data location and the
/// trace names, as the configuration file states them.
#[derive(Debug, Clone, PartialEq, Eq)]
pub struct NetTraceExperimentConfig {
    pub url: String,
    pub prefix: String,
    pub traces: Vec<String>,
}

} // verus!

