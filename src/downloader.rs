//! Decisions of the acquisition pipeline: which path a fetch takes, how a
//! large file is cut into ranges, and how a served range is read.

use vstd::prelude::*;
use crate::apt_parser::parse_u64;
use crate::text::{find_char, has_prefix, slice_of, to_chars};

verus! {

/// The size of one ranged chunk: 2 MiB.
pub const CHUNK_SIZE: u64 = 2097152;

/// Files larger than this, 10 MiB, are fetched in parallel chunks.
pub const CHUNKED_THRESHOLD: u64 = 10485760;

/// How to fetch a URL into a destination file.
#[derive(Debug, PartialEq, Eq)]
pub enum FetchPlan {
    /// The destination already holds the whole file.
    AlreadyComplete,
    /// Fetch the inclusive byte range `from..=to` and append it.
    Resume { from: u64, to: u64 },
    /// Fetch these inclusive byte ranges in parallel, each at its offset.
    Chunked(Vec<(u64, u64)>),
    /// One streaming request.
    Sequential,
}

/// The inclusive ranges of chunk `i` of a file of `total` bytes.
pub open spec fn chunk_spec(total: int, i: int) -> (int, int) {
    (i * CHUNK_SIZE, if i * CHUNK_SIZE + CHUNK_SIZE < total {
        i * CHUNK_SIZE + CHUNK_SIZE
    } else {
        total
    } - 1)
}

/// `r` cuts `[0, total)` into consecutive chunks of `CHUNK_SIZE` bytes, the
/// last one possibly shorter.
pub open spec fn chunks_of(r: Seq<(u64, u64)>, total: int) -> bool {
    &&& forall|i: int|
        0 <= i < r.len() ==> (#[trigger] r[i]).0 == chunk_spec(total, i).0 && r[i].1 == chunk_spec(
            total,
            i,
        ).1
    &&& r.len() * CHUNK_SIZE >= total
    &&& r.len() > 0 ==> (r.len() - 1) * CHUNK_SIZE < total
}

/// Cuts a file of `total` bytes into chunk ranges.
pub fn chunk_ranges(total: u64) -> (r: Vec<(u64, u64)>)
    ensures
        chunks_of(r@, total as int),
{
    let mut r: Vec<(u64, u64)> = Vec::new();
    let mut start: u64 = 0;
    while start < total
        invariant
            start <= total,
            start as int == r@.len() * CHUNK_SIZE || (start == total && r@.len() * CHUNK_SIZE
                >= total),
            forall|i: int|
                0 <= i < r@.len() ==> (#[trigger] r@[i]).0 == chunk_spec(total as int, i).0
                    && r@[i].1 == chunk_spec(total as int, i).1,
            r@.len() > 0 ==> (r@.len() - 1) * CHUNK_SIZE < total,
        decreases total - start,
    {
        let remaining = total - start;
        let len = if remaining < CHUNK_SIZE {
            remaining
        } else {
            CHUNK_SIZE
        };
        assert(start as int == r@.len() * CHUNK_SIZE);
        r.push((start, start + len - 1));
        start = start + len;
    }
    r
}

/// The fetch path for a destination that holds `existing` bytes, given what
/// the `HEAD` request reported.
pub open spec fn fetch_plan_kind(existing: u64, ranges: bool, length: Option<u64>) -> int {
    match length {
        Some(l) => if existing > 0 && ranges && existing < l {
            1
        } else if existing > 0 && ranges && existing == l {
            0
        } else if l > CHUNKED_THRESHOLD && ranges {
            2
        } else {
            3
        },
        None => 3,
    }
}

/// Chooses how to fetch: resume a partial file, accept a complete one, cut
/// a large file into chunks when ranges are served, or stream it.
pub fn plan_fetch(existing: u64, supports_ranges: bool, content_length: Option<u64>) -> (r: FetchPlan)
    ensures
        fetch_plan_kind(existing, supports_ranges, content_length) == 0 <==> r is AlreadyComplete,
        fetch_plan_kind(existing, supports_ranges, content_length) == 1 <==> r is Resume,
        fetch_plan_kind(existing, supports_ranges, content_length) == 2 <==> r is Chunked,
        fetch_plan_kind(existing, supports_ranges, content_length) == 3 <==> r is Sequential,
        r matches FetchPlan::Resume { from, to } ==> from == existing && to == content_length->0
            - 1,
        r matches FetchPlan::Chunked(c) ==> chunks_of(c@, content_length->0 as int),
{
    match content_length {
        Some(l) => {
            if existing > 0 && supports_ranges && existing < l {
                FetchPlan::Resume { from: existing, to: l - 1 }
            } else if existing > 0 && supports_ranges && existing == l {
                FetchPlan::AlreadyComplete
            } else if l > CHUNKED_THRESHOLD && supports_ranges {
                FetchPlan::Chunked(chunk_ranges(l))
            } else {
                FetchPlan::Sequential
            }
        },
        None => FetchPlan::Sequential,
    }
}

/// The inclusive range that a `Range: bytes=start-end` header asks of a
/// file of `file_size` bytes; an open end reaches the last byte.
pub open spec fn range_spec(h: Seq<char>, file_size: u64) -> Option<(u64, u64)> {
    let p = seq!['b', 'y', 't', 'e', 's', '='];
    if !crate::text::starts_with(h, p) {
        None
    } else {
        let r = h.skip(6);
        let d = crate::text::find(r, '-');
        if d < 0 {
            None
        } else {
            match crate::apt_parser::parse_u64_spec(r.take(d)) {
                None => None,
                Some(start) => {
                    let end_text = r.skip(d + 1);
                    let end: Option<u64> = if end_text.len() == 0 {
                        if file_size > 0 {
                            Some((file_size - 1) as u64)
                        } else {
                            None
                        }
                    } else {
                        crate::apt_parser::parse_u64_spec(end_text)
                    };
                    match end {
                        Some(e) => if start <= e && e < file_size {
                            Some((start, e))
                        } else {
                            None
                        },
                        None => None,
                    }
                },
            }
        }
    }
}

/// Reads a `Range` header against a file of `file_size` bytes.
pub fn parse_range(range_str: &str, file_size: u64) -> (r: Option<(u64, u64)>)
    ensures
        r == range_spec(range_str@, file_size),
{
    proof {
        reveal_strlit("bytes=");
        assert("bytes="@ =~= seq!['b', 'y', 't', 'e', 's', '=']);
    }
    let h = to_chars(range_str);
    if !has_prefix(&h, "bytes=") {
        return None;
    }
    let r = slice_of(&h, 6, h.len());
    assert(r@ =~= h@.skip(6));
    let d = find_char(&r, '-', 0);
    proof {
        crate::text::lemma_find_from_bounds(r@, '-', 0);
    }
    if d >= r.len() {
        return None;
    }
    let start_text = slice_of(&r, 0, d);
    assert(start_text@ =~= r@.take(d as int));
    let start = match parse_u64(&start_text) {
        Some(s) => s,
        None => {
            return None;
        },
    };
    let end_text = slice_of(&r, d + 1, r.len());
    assert(end_text@ =~= r@.skip(d + 1));
    let end = if end_text.len() == 0 {
        if file_size > 0 {
            file_size - 1
        } else {
            return None;
        }
    } else {
        match parse_u64(&end_text) {
            Some(e) => e,
            None => {
                return None;
            },
        }
    };
    if start <= end && end < file_size {
        Some((start, end))
    } else {
        None
    }
}

} // verus!
