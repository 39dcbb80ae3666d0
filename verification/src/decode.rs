//! Delta decoder: turns one framed line into at most one text fragment.
//!
//! Rules, in order: a line whose trimmed form ends with the `[DONE]` sentinel
//! stops the stream; a `data:` prefix is stripped and the rest re-trimmed; a
//! line that is then empty is skipped; anything else must be a JSON payload,
//! from which the first choice's incremental text is extracted. A payload that
//! is not valid JSON is a fatal decode error; a valid payload without a text
//! fragment (or with an empty one) is skipped.

use vstd::prelude::*;
use vstd::slice::slice_subrange;
use vstd::slice::slice_to_vec;

use crate::models::BackendError;

verus! {

/// ASCII whitespace, as stripped from the ends of a framed line.
pub open spec fn is_ws(b: u8) -> bool {
    b == 32u8 || b == 9u8 || b == 13u8 || b == 10u8
}

pub open spec fn trim_start_spec(s: Seq<u8>) -> Seq<u8>
    decreases s.len(),
{
    if s.len() > 0 && is_ws(s[0]) {
        trim_start_spec(s.drop_first())
    } else {
        s
    }
}

pub open spec fn trim_end_spec(s: Seq<u8>) -> Seq<u8>
    decreases s.len(),
{
    if s.len() > 0 && is_ws(s.last()) {
        trim_end_spec(s.drop_last())
    } else {
        s
    }
}

/// A line with surrounding ASCII whitespace removed.
pub open spec fn trim_spec(s: Seq<u8>) -> Seq<u8> {
    trim_end_spec(trim_start_spec(s))
}

proof fn lemma_trim_start_at(s: Seq<u8>, i: int)
    requires
        0 <= i <= s.len(),
        forall|k: int| 0 <= k < i ==> is_ws(s[k]),
        i == s.len() || !is_ws(s[i]),
    ensures
        trim_start_spec(s) == s.subrange(i, s.len() as int),
    decreases i,
{
    if i == 0 {
        assert(s.subrange(0, s.len() as int) =~= s);
    } else {
        assert(is_ws(s[0]));
        lemma_trim_start_at(s.drop_first(), i - 1);
        assert(s.drop_first().subrange(i - 1, s.drop_first().len() as int) =~= s.subrange(
            i,
            s.len() as int,
        ));
    }
}

proof fn lemma_trim_end_at(s: Seq<u8>, j: int)
    requires
        0 <= j <= s.len(),
        forall|k: int| j <= k < s.len() ==> is_ws(s[k]),
        j == 0 || !is_ws(s[j - 1]),
    ensures
        trim_end_spec(s) == s.subrange(0, j),
    decreases s.len(),
{
    if j == s.len() {
        if s.len() == 0 || !is_ws(s.last()) {
            assert(s.subrange(0, j) =~= s);
        } else {
            assert(false);
        }
    } else {
        assert(is_ws(s.last()));
        lemma_trim_end_at(s.drop_last(), j);
        assert(s.drop_last().subrange(0, j) =~= s.subrange(0, j));
    }
}

fn is_ws_byte(b: u8) -> (r: bool)
    ensures
        r == is_ws(b),
{
    b == 32 || b == 9 || b == 13 || b == 10
}

/// Removes leading and trailing ASCII whitespace.
pub fn trim_bytes(v: &Vec<u8>) -> (r: Vec<u8>)
    ensures
        r@ == trim_spec(v@),
{
    let n = v.len();
    let mut start: usize = 0;
    while start < n && is_ws_byte(v[start])
        invariant
            0 <= start <= n == v@.len(),
            forall|k: int| 0 <= k < start ==> is_ws(v@[k]),
        decreases n - start,
    {
        start += 1;
    }
    proof {
        lemma_trim_start_at(v@, start as int);
    }
    let ghost t: Seq<u8> = v@.subrange(start as int, v@.len() as int);
    let mut end: usize = n;
    while end > start && is_ws_byte(v[end - 1])
        invariant
            start <= end <= n == v@.len(),
            forall|k: int| end <= k < n ==> is_ws(v@[k]),
        decreases end,
    {
        end -= 1;
    }
    proof {
        lemma_trim_end_at(t, end - start);
        assert(t.subrange(0, end - start) =~= v@.subrange(start as int, end as int));
    }
    slice_to_vec(slice_subrange(v.as_slice(), start, end))
}

/// The end-of-stream sentinel `[DONE]`, as bytes.
pub open spec fn sentinel_bytes() -> Seq<u8> {
    seq![91u8, 68u8, 79u8, 78u8, 69u8, 93u8]
}

/// Whether a trimmed line signals end of stream: it ends with `[DONE]`.
pub open spec fn ends_with_sentinel(s: Seq<u8>) -> bool {
    s.len() >= 6 && s.subrange(s.len() - 6, s.len() as int) == sentinel_bytes()
}

fn is_sentinel_line(v: &Vec<u8>) -> (r: bool)
    ensures
        r == ends_with_sentinel(v@),
{
    let n = v.len();
    if n < 6 {
        return false;
    }
    let r = v[n - 6] == 91 && v[n - 5] == 68 && v[n - 4] == 79 && v[n - 3] == 78 && v[n - 2]
        == 69 && v[n - 1] == 93;
    proof {
        let tail = v@.subrange(n - 6, n as int);
        assert(tail.len() == 6);
        assert(forall|k: int| 0 <= k < 6 ==> tail[k] == v@[n - 6 + k]);
        if r {
            assert(tail =~= sentinel_bytes());
        } else {
            assert(tail != sentinel_bytes()) by {
                if tail == sentinel_bytes() {
                    assert(v@[n - 6] == tail[0] && v@[n - 5] == tail[1] && v@[n - 4] == tail[2]
                        && v@[n - 3] == tail[3] && v@[n - 2] == tail[4] && v@[n - 1] == tail[5]);
                }
            }
        }
    }
    r
}

/// The `data:` line-prefix marker, as bytes.
pub open spec fn data_prefix() -> Seq<u8> {
    seq![100u8, 97u8, 116u8, 97u8, 58u8]
}

pub open spec fn starts_with_data(s: Seq<u8>) -> bool {
    s.len() >= 5 && s.subrange(0, 5) == data_prefix()
}

/// The payload of a trimmed line: the line with a `data:` prefix stripped
/// and the rest re-trimmed, or the line itself if it has no such prefix.
pub open spec fn payload_spec(t: Seq<u8>) -> Seq<u8> {
    if starts_with_data(t) {
        trim_spec(t.skip(5))
    } else {
        t
    }
}

fn strip_data_prefix(t: Vec<u8>) -> (r: Vec<u8>)
    ensures
        r@ == payload_spec(t@),
{
    let n = t.len();
    let has = n >= 5 && t[0] == 100 && t[1] == 97 && t[2] == 116 && t[3] == 97 && t[4] == 58;
    proof {
        if n >= 5 {
            let head = t@.subrange(0, 5);
            assert(forall|k: int| 0 <= k < 5 ==> head[k] == t@[k]);
            if has {
                assert(head =~= data_prefix());
            } else {
                assert(head != data_prefix()) by {
                    if head == data_prefix() {
                        assert(t@[0] == head[0] && t@[1] == head[1] && t@[2] == head[2] && t@[3]
                            == head[3] && t@[4] == head[4]);
                    }
                }
            }
        }
    }
    if has {
        let rest = slice_to_vec(slice_subrange(t.as_slice(), 5, n));
        proof {
            assert(t@.subrange(5, n as int) =~= t@.skip(5));
        }
        trim_bytes(&rest)
    } else {
        t
    }
}

/// What serde_json finds at `choices[0].delta.content` of a payload:
/// `None` if the payload is not valid JSON, `Some(None)` if it is JSON
/// without a string there, `Some(Some(f))` for the string `f`.
pub uninterp spec fn json_fragment_of(payload: Seq<u8>) -> Option<Option<Seq<char>>>;

/// Relies on serde_json::from_slice::<serde_json::Value> together with
/// serde_json::Value::get and Value::as_str: parsing is a function of the
/// payload bytes alone, and the accessors walk to the first choice's
/// incremental text at choices[0].delta.content.
#[verifier::external_body]
fn parse_fragment(payload: &Vec<u8>) -> (r: Option<Option<String>>)
    ensures
        match r {
            None => json_fragment_of(payload@) is None,
            Some(None) => json_fragment_of(payload@) == Some(Option::<Seq<char>>::None),
            Some(Some(f)) => json_fragment_of(payload@) == Some(Some(f@)),
        },
{
    let value: serde_json::Value = match serde_json::from_slice(payload.as_slice()) {
        Ok(v) => v,
        Err(_) => {
            return None;
        },
    };
    let fragment = value
        .get("choices")
        .and_then(|cs| cs.get(0))
        .and_then(|c| c.get("delta"))
        .and_then(|d| d.get("content"))
        .and_then(|t| t.as_str());
    Some(fragment.map(|t| t.to_string()))
}

/// What one framed line means, at the specification level.
pub enum LineStep {
    /// The sentinel: stop consuming lines.
    Stop,
    /// A control, blank or fragment-less line: nothing to emit.
    Skip,
    /// A payload carrying this non-empty text fragment.
    Frag(Seq<char>),
    /// A payload that is not valid JSON: the call fails.
    Fail,
}

/// The decoding rules applied to one framed line.
pub open spec fn decode_line_spec(line: Seq<u8>) -> LineStep {
    let t = trim_spec(line);
    if ends_with_sentinel(t) {
        LineStep::Stop
    } else {
        let p = payload_spec(t);
        if p.len() == 0 {
            LineStep::Skip
        } else {
            match json_fragment_of(p) {
                None => LineStep::Fail,
                Some(None) => LineStep::Skip,
                Some(Some(f)) => if f.len() == 0 {
                    LineStep::Skip
                } else {
                    LineStep::Frag(f)
                },
            }
        }
    }
}

/// What decoding one line told the driver to do.
#[derive(Debug)]
pub enum LineOutcome {
    /// Stop consuming lines.
    Stop,
    /// Nothing to emit for this line.
    Skip,
    /// Emit this non-empty fragment.
    Fragment(String),
}

/// Decodes one framed line. The result follows `decode_line_spec` exactly.
pub fn decode_line(line: &Vec<u8>) -> (r: Result<LineOutcome, BackendError>)
    ensures
        match decode_line_spec(line@) {
            LineStep::Stop => r matches Ok(LineOutcome::Stop),
            LineStep::Skip => r matches Ok(LineOutcome::Skip),
            LineStep::Frag(f) => r matches Ok(LineOutcome::Fragment(s)) && s@ == f,
            LineStep::Fail => r matches Err(e) && e == BackendError::DecodeError,
        },
{
    let t = trim_bytes(line);
    if is_sentinel_line(&t) {
        return Ok(LineOutcome::Stop);
    }
    let p = strip_data_prefix(t);
    if p.len() == 0 {
        return Ok(LineOutcome::Skip);
    }
    match parse_fragment(&p) {
        None => Err(BackendError::DecodeError),
        Some(None) => Ok(LineOutcome::Skip),
        Some(Some(f)) => {
            if f.as_str().unicode_len() == 0 {
                Ok(LineOutcome::Skip)
            } else {
                Ok(LineOutcome::Fragment(f))
            }
        },
    }
}

} // verus!
