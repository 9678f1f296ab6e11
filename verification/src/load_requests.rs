//! Turning external request descriptions into [`Request`] values: parsing
//! `timestamp,duration,name` records, and synthesising a queue from
//! (count, duration, interval) parameters.
//!
//! A record is one line of exactly three comma-separated fields; the first
//! two are decimal millisecond values, the third is a free-form name without
//! commas. Malformed records are reported by index, not fatal: loading
//! skips them and keeps going.

use vstd::prelude::*;
use crate::types::{ReqV, Request};

verus! {

/// ASCII decimal digit.
pub open spec fn is_dec_digit(b: u8) -> bool {
    48 <= b <= 57
}

pub open spec fn all_dec_digits(s: Seq<u8>) -> bool {
    forall|i: int| 0 <= i < s.len() ==> is_dec_digit(#[trigger] s[i])
}

/// Value of an ASCII decimal numeral, most significant digit first.
pub open spec fn dec_val(s: Seq<u8>) -> int
    decreases s.len(),
{
    if s.len() == 0 {
        0
    } else {
        dec_val(s.drop_last()) * 10 + (s.last() - 48)
    }
}

/// A field that parses as a `u64`: non-empty, all digits, in range.
pub open spec fn valid_u64_field(s: Seq<u8>) -> bool {
    s.len() > 0 && all_dec_digits(s) && dec_val(s) <= u64::MAX
}

pub proof fn lemma_dec_val_nonneg(s: Seq<u8>)
    requires
        all_dec_digits(s),
    ensures
        dec_val(s) >= 0,
    decreases s.len(),
{
    if s.len() > 0 {
        assert(all_dec_digits(s.drop_last()));
        lemma_dec_val_nonneg(s.drop_last());
    }
}

/// Longer numerals have at least the value of any prefix: appending a digit
/// multiplies by ten and adds something non-negative.
pub proof fn lemma_dec_val_prefix(s: Seq<u8>, i: int)
    requires
        all_dec_digits(s),
        0 <= i <= s.len(),
    ensures
        dec_val(s) >= dec_val(s.subrange(0, i)),
    decreases s.len(),
{
    lemma_dec_val_nonneg(s);
    if i < s.len() {
        assert(all_dec_digits(s.drop_last()));
        lemma_dec_val_prefix(s.drop_last(), i);
        assert(s.drop_last().subrange(0, i) =~= s.subrange(0, i));
        lemma_dec_val_nonneg(s.drop_last());
    } else {
        assert(s.subrange(0, i) =~= s);
    }
}

/// Parse the decimal field `line[start..end]` as a `u64`. Returns `None`
/// exactly when the field is empty, has a non-digit, or overflows.
pub fn parse_field(line: &Vec<u8>, start: usize, end: usize) -> (r: Option<u64>)
    requires
        start <= end <= line@.len(),
    ensures
        match r {
            Some(v) => valid_u64_field(line@.subrange(start as int, end as int)) && v == dec_val(
                line@.subrange(start as int, end as int),
            ),
            None => !valid_u64_field(line@.subrange(start as int, end as int)),
        },
{
    let ghost sub = line@.subrange(start as int, end as int);
    if start == end {
        return None;
    }
    let mut acc: u64 = 0;
    let mut k = start;
    while k < end
        invariant
            start <= k <= end <= line@.len(),
            sub == line@.subrange(start as int, end as int),
            all_dec_digits(sub.subrange(0, k - start)),
            acc == dec_val(sub.subrange(0, k - start)),
        decreases end - k,
    {
        let b = line[k];
        proof {
            assert(sub[k - start] == line@[k as int]);
        }
        if b < 48 || b > 57 {
            proof {
                assert(!is_dec_digit(sub[k - start]));
            }
            return None;
        }
        let d = (b - 48) as u64;
        proof {
            assert(sub.subrange(0, k - start + 1).drop_last() =~= sub.subrange(0, k - start));
            assert(sub.subrange(0, k - start + 1).last() == sub[k - start]);
        }
        if acc > (u64::MAX - d) / 10 {
            proof {
                assert(acc * 10 + d > u64::MAX) by (nonlinear_arith)
                    requires
                        acc > (u64::MAX - d) / 10,
                        0 <= d <= 9,
                        acc >= 0,
                ;
                assert(dec_val(sub.subrange(0, k - start + 1)) > u64::MAX);
                if all_dec_digits(sub) {
                    lemma_dec_val_prefix(sub, k - start + 1);
                }
            }
            return None;
        }
        proof {
            assert(acc * 10 + d <= u64::MAX) by (nonlinear_arith)
                requires
                    acc <= (u64::MAX - d) / 10,
                    0 <= d <= 9,
                    acc >= 0,
            ;
        }
        acc = acc * 10 + d;
        k = k + 1;
    }
    proof {
        assert(sub.subrange(0, end - start) =~= sub);
    }
    Some(acc)
}

/// `line` has commas exactly at positions `i` and `j` and nowhere else:
/// three fields, the third free of commas.
pub open spec fn is_comma_split(line: Seq<u8>, i: int, j: int) -> bool {
    &&& 0 <= i < j < line.len()
    &&& line[i] == 44
    &&& line[j] == 44
    &&& forall|k: int| 0 <= k < line.len() && k != i && k != j ==> #[trigger] line[k] != 44
}

pub proof fn lemma_comma_split_unique(line: Seq<u8>, i1: int, j1: int, i2: int, j2: int)
    requires
        is_comma_split(line, i1, j1),
        is_comma_split(line, i2, j2),
    ensures
        i1 == i2 && j1 == j2,
{
}

/// What one record means: `Some` exactly when the line has three
/// comma-separated fields whose first two are in-range decimal numerals.
pub open spec fn parse_line_spec(line: Seq<u8>) -> Option<ReqV> {
    if exists|i: int, j: int| is_comma_split(line, i, j) {
        let (i, j) = choose|i: int, j: int| is_comma_split(line, i, j);
        let ts = line.subrange(0, i);
        let dur = line.subrange(i + 1, j);
        if valid_u64_field(ts) && valid_u64_field(dur) {
            Some(
                ReqV {
                    arrived: dec_val(ts),
                    duration: dec_val(dur),
                    name: line.subrange(j + 1, line.len() as int),
                },
            )
        } else {
            None
        }
    } else {
        None
    }
}

/// Parse one `timestamp,duration,name` record; `None` for a malformed one.
pub fn parse_request_line(line: &Vec<u8>) -> (r: Option<Request>)
    ensures
        match r {
            Some(req) => parse_line_spec(line@) == Some(req@),
            None => parse_line_spec(line@) is None,
        },
{
    let n = line.len();
    let mut k: usize = 0;
    let mut count: usize = 0;
    let mut p1: usize = 0;
    let mut p2: usize = 0;
    let mut p3: usize = 0;
    while k < n
        invariant
            n == line@.len(),
            0 <= k <= n,
            count <= k,
            count == 0 ==> forall|m: int| 0 <= m < k ==> #[trigger] line@[m] != 44,
            count == 1 ==> p1 < k && line@[p1 as int] == 44 && forall|m: int|
                0 <= m < k && m != p1 ==> #[trigger] line@[m] != 44,
            count == 2 ==> p1 < p2 < k && line@[p1 as int] == 44 && line@[p2 as int] == 44
                && forall|m: int|
                0 <= m < k && m != p1 && m != p2 ==> #[trigger] line@[m] != 44,
            count >= 3 ==> p1 < p2 < p3 < k && line@[p1 as int] == 44 && line@[p2 as int] == 44
                && line@[p3 as int] == 44,
        decreases n - k,
    {
        if line[k] == 44 {
            if count == 0 {
                p1 = k;
            } else if count == 1 {
                p2 = k;
            } else if count == 2 {
                p3 = k;
            }
            count = count + 1;
        }
        k = k + 1;
    }
    if count != 2 {
        proof {
            if exists|i: int, j: int| is_comma_split(line@, i, j) {
                let (i, j) = choose|i: int, j: int| is_comma_split(line@, i, j);
                if count == 0 {
                    assert(line@[i] != 44);
                } else if count == 1 {
                    assert(i == p1 && j == p1);
                } else {
                    assert(p1 as int == i || p1 as int == j);
                    assert(p2 as int == i || p2 as int == j);
                    assert(p3 as int == i || p3 as int == j);
                }
            }
        }
        return None;
    }
    proof {
        assert(is_comma_split(line@, p1 as int, p2 as int));
        let (i, j) = choose|i: int, j: int| is_comma_split(line@, i, j);
        lemma_comma_split_unique(line@, i, j, p1 as int, p2 as int);
    }
    let timestamp = parse_field(line, 0, p1);
    let duration = parse_field(line, p1 + 1, p2);
    let (ts, dur) = match (timestamp, duration) {
        (Some(ts), Some(dur)) => (ts, dur),
        _ => {
            return None;
        },
    };
    let mut name = Vec::<u8>::new();
    let mut m = p2 + 1;
    while m < n
        invariant
            n == line@.len(),
            p2 as int + 1 <= m <= n,
            name@ == line@.subrange(p2 as int + 1, m as int),
        decreases n - m,
    {
        name.push(line[m]);
        proof {
            assert(line@.subrange(p2 as int + 1, m + 1) =~= line@.subrange(
                p2 as int + 1,
                m as int,
            ).push(line@[m as int]));
        }
        m = m + 1;
    }
    Some(Request::new(dur, ts, name))
}

/// The requests of the well-formed records, in line order.
pub open spec fn parsed_requests(lines: Seq<Seq<u8>>) -> Seq<ReqV>
    decreases lines.len(),
{
    if lines.len() == 0 {
        Seq::empty()
    } else {
        match parse_line_spec(lines[0]) {
            Some(r) => seq![r] + parsed_requests(lines.drop_first()),
            None => parsed_requests(lines.drop_first()),
        }
    }
}

/// The indices of the malformed records, in order, starting from `base`.
pub open spec fn skipped_records(lines: Seq<Seq<u8>>, base: int) -> Seq<int>
    decreases lines.len(),
{
    if lines.len() == 0 {
        Seq::empty()
    } else {
        match parse_line_spec(lines[0]) {
            Some(r) => skipped_records(lines.drop_first(), base + 1),
            None => seq![base] + skipped_records(lines.drop_first(), base + 1),
        }
    }
}

/// Load requests from the lines of a request file: every well-formed record
/// becomes a request, and the index of every malformed one is returned so
/// the caller can warn about it. Nothing here is fatal; opening the file,
/// and deciding what a failure to open it means, is the caller's concern.
pub fn load_requests(lines: &Vec<Vec<u8>>) -> (r: (Vec<Request>, Vec<usize>))
    ensures
        r.0.deep_view() == parsed_requests(lines.deep_view()),
        r.1@.map_values(|u: usize| u as int) == skipped_records(lines.deep_view(), 0),
{
    let ghost lv = lines.deep_view();
    let mut requests = Vec::<Request>::new();
    let mut skipped = Vec::<usize>::new();
    let n = lines.len();
    let mut idx: usize = 0;
    proof {
        assert(lv.skip(0) =~= lv);
        assert(requests.deep_view() + parsed_requests(lv) =~= parsed_requests(lv));
        assert(skipped@.map_values(|u: usize| u as int) + skipped_records(lv, 0)
            =~= skipped_records(lv, 0));
    }
    while idx < n
        invariant
            n == lines@.len(),
            lv == lines.deep_view(),
            0 <= idx <= n,
            parsed_requests(lv) == requests.deep_view() + parsed_requests(lv.skip(idx as int)),
            skipped_records(lv, 0) == skipped@.map_values(|u: usize| u as int) + skipped_records(
                lv.skip(idx as int),
                idx as int,
            ),
        decreases n - idx,
    {
        let ghost old_requests = requests.deep_view();
        let ghost old_skipped = skipped@.map_values(|u: usize| u as int);
        proof {
            assert(lv.skip(idx as int)[0] == lv[idx as int]);
            assert(lv.skip(idx as int).drop_first() =~= lv.skip(idx as int + 1));
            assert(lv[idx as int] == lines@[idx as int].deep_view());
            assert(lines@[idx as int].deep_view() =~= lines@[idx as int]@);
        }
        match parse_request_line(&lines[idx]) {
            Some(req) => {
                requests.push(req);
                proof {
                    assert(requests.deep_view() =~= old_requests.push(req@));
                    assert(old_requests + (seq![req@] + parsed_requests(
                        lv.skip(idx as int + 1),
                    )) =~= requests.deep_view() + parsed_requests(lv.skip(idx as int + 1)));
                }
            },
            None => {
                skipped.push(idx);
                proof {
                    assert(skipped@.map_values(|u: usize| u as int) =~= old_skipped.push(
                        idx as int,
                    ));
                    assert(old_skipped + (seq![idx as int] + skipped_records(
                        lv.skip(idx as int + 1),
                        idx as int + 1,
                    )) =~= skipped@.map_values(|u: usize| u as int) + skipped_records(
                        lv.skip(idx as int + 1),
                        idx as int + 1,
                    ));
                }
            },
        }
        idx = idx + 1;
    }
    proof {
        assert(lv.skip(n as int) =~= Seq::<Seq<u8>>::empty());
        assert(requests.deep_view() + Seq::<ReqV>::empty() =~= requests.deep_view());
        assert(skipped@.map_values(|u: usize| u as int) + Seq::<int>::empty() =~= skipped@
            .map_values(|u: usize| u as int));
    }
    (requests, skipped)
}

/// ASCII decimal numeral of `n`, most significant digit first.
pub open spec fn dec_repr(n: int) -> Seq<u8>
    recommends
        n >= 0,
    decreases n,
{
    if n < 10 {
        seq![(48 + n) as u8]
    } else {
        dec_repr(n / 10).push((48 + n % 10) as u8)
    }
}

/// The display name given to the i-th synthetic request.
pub open spec fn req_name(i: int) -> Seq<u8> {
    seq![35u8, 114u8, 101u8, 113u8] + dec_repr(i)
}

fn decimal_digits(n: u64) -> (r: Vec<u8>)
    ensures
        r@ == dec_repr(n as int),
    decreases n,
{
    if n < 10 {
        let mut v = Vec::<u8>::new();
        v.push(48 + n as u8);
        proof {
            assert(v@ =~= dec_repr(n as int));
        }
        v
    } else {
        let mut v = decimal_digits(n / 10);
        v.push(48 + (n % 10) as u8);
        v
    }
}

/// Build `request_count` requests of the given duration, the i-th arriving
/// at `i * interval` and named after its index.
pub fn create_request_queue(request_count: u32, request_duration: u32, interval: u64) -> (r: Vec<
    Request,
>)
    requires
        request_count as int * interval as int <= u64::MAX,
    ensures
        r@.len() == request_count,
        forall|i: int|
            0 <= i < request_count ==> #[trigger] r@[i]@ == (ReqV {
                arrived: i * interval as int,
                duration: request_duration as int,
                name: req_name(i),
            }),
{
    let mut request_queue = Vec::<Request>::new();
    let mut clock: u64 = 0;
    proof {
        assert(0int * interval as int == 0) by (nonlinear_arith);
    }
    for k in 0..request_count
        invariant
            request_count as int * interval as int <= u64::MAX,
            clock == k as int * interval as int,
            request_queue@.len() == k,
            forall|i: int|
                0 <= i < k ==> #[trigger] request_queue@[i]@ == (ReqV {
                    arrived: i * interval as int,
                    duration: request_duration as int,
                    name: req_name(i),
                }),
    {
        let mut name = Vec::<u8>::new();
        name.push(35);
        name.push(114);
        name.push(101);
        name.push(113);
        let digits = decimal_digits(k as u64);
        let mut j: usize = 0;
        let dn = digits.len();
        while j < dn
            invariant
                dn == digits@.len(),
                0 <= j <= dn,
                digits@ == dec_repr(k as int),
                name@ == seq![35u8, 114u8, 101u8, 113u8] + digits@.subrange(0, j as int),
            decreases dn - j,
        {
            name.push(digits[j]);
            proof {
                assert(digits@.subrange(0, j + 1) =~= digits@.subrange(0, j as int).push(
                    digits@[j as int],
                ));
                assert(name@ =~= seq![35u8, 114u8, 101u8, 113u8] + digits@.subrange(0, j + 1));
            }
            j = j + 1;
        }
        proof {
            assert(digits@.subrange(0, dn as int) =~= digits@);
            assert(name@ =~= req_name(k as int));
        }
        request_queue.push(Request::new(request_duration as u64, clock, name));
        proof {
            assert((k as int + 1) * interval as int == k as int * interval as int
                + interval as int) by (nonlinear_arith);
            assert((k as int + 1) * interval as int <= request_count as int * interval as int)
                by (nonlinear_arith)
                requires
                    k as int + 1 <= request_count as int,
                    interval as int >= 0,
            ;
        }
        clock = clock + interval;
    }
    request_queue
}

} // verus!
