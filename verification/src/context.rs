//! Serialized conversation context: the adapter's own stable framing of the
//! ordered `{role, content}` message records that it round-trips through the
//! caller between turns.
//!
//! A context is a string of records, each record being the decimal character
//! count of the role, a colon, the role, the decimal character count of the
//! content, a colon, and the content. Parsing is the exact inverse of
//! serialization; `lemma_context_round_trip` proves it.

use vstd::prelude::*;
use vstd::string::StrSliceExecFns;
use vstd::string::StringExecFns;

use crate::models::BackendError;
use crate::models::MessageRequest;
use crate::models::MessageView;

verus! {

pub open spec fn is_digit(c: char) -> bool {
    48 <= c as u32 && c as u32 <= 57
}

pub open spec fn digit_val(c: char) -> nat {
    ((c as u32) - 48) as nat
}

pub open spec fn digit_char(d: nat) -> char {
    if d == 0 {
        '0'
    } else if d == 1 {
        '1'
    } else if d == 2 {
        '2'
    } else if d == 3 {
        '3'
    } else if d == 4 {
        '4'
    } else if d == 5 {
        '5'
    } else if d == 6 {
        '6'
    } else if d == 7 {
        '7'
    } else if d == 8 {
        '8'
    } else {
        '9'
    }
}

/// The decimal digits of `n`, most significant first.
pub open spec fn dec_digits(n: nat) -> Seq<char>
    decreases n,
{
    if n < 10 {
        seq![digit_char(n)]
    } else {
        dec_digits(n / 10).push(digit_char(n % 10))
    }
}

/// The value of a digit string read as a decimal number.
pub open spec fn dec_val(ds: Seq<char>) -> nat
    decreases ds.len(),
{
    if ds.len() == 0 {
        0
    } else {
        dec_val(ds.drop_last()) * 10 + digit_val(ds.last())
    }
}

/// One serialized message record.
pub open spec fn ser_msg(m: MessageView) -> Seq<char> {
    dec_digits(m.role.len()) + seq![':'] + m.role + dec_digits(m.content.len()) + seq![':']
        + m.content
}

/// The serialized form of a whole context.
pub open spec fn ctx_ser(msgs: Seq<MessageView>) -> Seq<char>
    decreases msgs.len(),
{
    if msgs.len() == 0 {
        Seq::<char>::empty()
    } else {
        ser_msg(msgs[0]) + ctx_ser(msgs.drop_first())
    }
}

proof fn lemma_dec_digits_are_digits(n: nat)
    ensures
        dec_digits(n).len() >= 1,
        forall|k: int| 0 <= k < dec_digits(n).len() ==> is_digit(dec_digits(n)[k]),
    decreases n,
{
    if n < 10 {
        assert(is_digit(digit_char(n)));
    } else {
        lemma_dec_digits_are_digits(n / 10);
        assert(is_digit(digit_char(n % 10)));
    }
}

proof fn lemma_dec_digits_val(n: nat)
    ensures
        dec_val(dec_digits(n)) == n,
    decreases n,
{
    if n < 10 {
        assert(dec_digits(n) == seq![digit_char(n)]);
        assert(seq![digit_char(n)].drop_last() =~= Seq::<char>::empty());
        assert(dec_val(Seq::<char>::empty()) == 0);
        assert(digit_val(digit_char(n)) == n);
    } else {
        lemma_dec_digits_val(n / 10);
        let p = dec_digits(n / 10);
        assert(p.push(digit_char((n % 10) as nat)).drop_last() =~= p);
        assert(digit_val(digit_char((n % 10) as nat)) == n % 10);
        assert(n == (n / 10) * 10 + n % 10) by (nonlinear_arith);
    }
}

fn push_digit(out: &mut String, d: usize)
    requires
        d < 10,
    ensures
        final(out)@ == old(out)@ + seq![digit_char(d as nat)],
{
    proof {
        reveal_strlit("0");
        reveal_strlit("1");
        reveal_strlit("2");
        reveal_strlit("3");
        reveal_strlit("4");
        reveal_strlit("5");
        reveal_strlit("6");
        reveal_strlit("7");
        reveal_strlit("8");
        reveal_strlit("9");
    }
    if d == 0 {
        out.append("0");
    } else if d == 1 {
        out.append("1");
    } else if d == 2 {
        out.append("2");
    } else if d == 3 {
        out.append("3");
    } else if d == 4 {
        out.append("4");
    } else if d == 5 {
        out.append("5");
    } else if d == 6 {
        out.append("6");
    } else if d == 7 {
        out.append("7");
    } else if d == 8 {
        out.append("8");
    } else {
        out.append("9");
    }
    proof {
        assert(final(out)@ =~= old(out)@ + seq![digit_char(d as nat)]);
    }
}

fn push_decimal(out: &mut String, n: usize)
    ensures
        final(out)@ == old(out)@ + dec_digits(n as nat),
    decreases n,
{
    if n < 10 {
        push_digit(out, n);
    } else {
        push_decimal(out, n / 10);
        push_digit(out, n % 10);
        proof {
            assert(final(out)@ =~= old(out)@ + dec_digits(n as nat));
        }
    }
}

fn push_message(out: &mut String, m: &MessageRequest)
    ensures
        final(out)@ == old(out)@ + ser_msg(m@),
{
    proof {
        reveal_strlit(":");
    }
    let rl = m.role.as_str().unicode_len();
    push_decimal(out, rl);
    out.append(":");
    out.append(m.role.as_str());
    let cl = m.content.as_str().unicode_len();
    push_decimal(out, cl);
    out.append(":");
    out.append(m.content.as_str());
    proof {
        assert(":"@ =~= seq![':']);
        assert(final(out)@ =~= old(out)@ + ser_msg(m@));
    }
}

proof fn lemma_ctx_ser_snoc(ms: Seq<MessageView>, m: MessageView)
    ensures
        ctx_ser(ms.push(m)) == ctx_ser(ms) + ser_msg(m),
    decreases ms.len(),
{
    if ms.len() == 0 {
        assert(ms.push(m)[0] == m);
        assert(ms.push(m).drop_first() =~= Seq::<MessageView>::empty());
        assert(ctx_ser(Seq::<MessageView>::empty()) == Seq::<char>::empty());
        assert(ctx_ser(ms) + ser_msg(m) =~= ser_msg(m));
        assert(ctx_ser(ms.push(m)) =~= ser_msg(m));
    } else {
        assert(ms.push(m).drop_first() =~= ms.drop_first().push(m));
        lemma_ctx_ser_snoc(ms.drop_first(), m);
        assert(ser_msg(ms[0]) + (ctx_ser(ms.drop_first()) + ser_msg(m)) =~= (ser_msg(ms[0])
            + ctx_ser(ms.drop_first())) + ser_msg(m));
    }
}

/// Serializes a context. The result is exactly `ctx_ser` of the messages.
pub fn serialize_context(msgs: &Vec<MessageRequest>) -> (r: String)
    ensures
        r@ == ctx_ser(msgs@.map_values(|m: MessageRequest| m@)),
{
    let ghost views: Seq<MessageView> = msgs@.map_values(|m: MessageRequest| m@);
    let mut out = String::new();
    let mut i: usize = 0;
    while i < msgs.len()
        invariant
            i <= msgs@.len(),
            views == msgs@.map_values(|m: MessageRequest| m@),
            out@ == ctx_ser(views.take(i as int)),
        decreases msgs@.len() - i,
    {
        push_message(&mut out, &msgs[i]);
        proof {
            assert(views.take(i + 1) =~= views.take(i as int).push(views[i as int]));
            lemma_ctx_ser_snoc(views.take(i as int), views[i as int]);
        }
        i += 1;
    }
    proof {
        assert(views.take(views.len() as int) =~= views);
    }
    out
}

/// How many leading characters of `s` are decimal digits.
pub open spec fn digits_prefix_len(s: Seq<char>) -> nat
    decreases s.len(),
{
    if s.len() > 0 && is_digit(s[0]) {
        1 + digits_prefix_len(s.drop_first())
    } else {
        0
    }
}

/// Reads a decimal length followed by a colon; yields the value and the rest.
pub open spec fn parse_len(s: Seq<char>) -> Option<(nat, Seq<char>)> {
    let k = digits_prefix_len(s);
    if k == 0 || k >= s.len() || s[k as int] != ':' {
        None
    } else {
        Some((dec_val(s.subrange(0, k as int)), s.skip(k as int + 1)))
    }
}

/// Reads one serialized message record; yields it and the rest.
pub open spec fn parse_msg(s: Seq<char>) -> Option<(MessageView, Seq<char>)> {
    match parse_len(s) {
        None => None,
        Some((rl, s1)) => if s1.len() < rl {
            None
        } else {
            let role = s1.subrange(0, rl as int);
            let s2 = s1.skip(rl as int);
            match parse_len(s2) {
                None => None,
                Some((cl, s3)) => if s3.len() < cl {
                    None
                } else {
                    Some(
                        (
                            MessageView { role, content: s3.subrange(0, cl as int) },
                            s3.skip(cl as int),
                        ),
                    )
                },
            }
        },
    }
}

/// Reads a whole context: message records until the string ends.
pub open spec fn ctx_parse(s: Seq<char>) -> Option<Seq<MessageView>>
    decreases s.len(),
{
    if s.len() == 0 {
        Some(Seq::<MessageView>::empty())
    } else {
        match parse_msg(s) {
            None => None,
            Some((m, rest)) => if rest.len() < s.len() {
                match ctx_parse(rest) {
                    None => None,
                    Some(ms) => Some(seq![m] + ms),
                }
            } else {
                None
            },
        }
    }
}

proof fn lemma_digits_prefix_len_at(s: Seq<char>, k: int)
    requires
        0 <= k <= s.len(),
        forall|m: int| 0 <= m < k ==> is_digit(s[m]),
        k == s.len() || !is_digit(s[k]),
    ensures
        digits_prefix_len(s) == k,
    decreases k,
{
    if k == 0 {
    } else {
        assert(is_digit(s[0]));
        lemma_digits_prefix_len_at(s.drop_first(), k - 1);
    }
}

/// A digit string extended on the right by more digits never shrinks in value.
proof fn lemma_dec_val_prefix_le(p: Seq<char>, q: Seq<char>)
    requires
        p.len() <= q.len(),
        q.subrange(0, p.len() as int) == p,
    ensures
        dec_val(q) >= dec_val(p),
    decreases q.len(),
{
    if q.len() == p.len() {
        assert(q.subrange(0, p.len() as int) =~= q);
    } else {
        assert(q.drop_last().subrange(0, p.len() as int) =~= q.subrange(0, p.len() as int));
        lemma_dec_val_prefix_le(p, q.drop_last());
    }
}

fn is_digit_char(c: char) -> (r: bool)
    ensures
        r == is_digit(c),
{
    let u = c as u32;
    48 <= u && u <= 57
}

/// Scans a decimal length starting at character position `i`, mirroring
/// `parse_len` on the remaining input. Fails also when the scanned value
/// exceeds the whole string's length: such a record can never complete.
fn scan_len(s: &str, i: usize) -> (r: Option<(usize, usize)>)
    requires
        i <= s@.len(),
        s@.len() <= usize::MAX,
    ensures
        match r {
            Some(vj) => i < vj.1 <= s@.len() && vj.0 <= s@.len() && parse_len(s@.skip(i as int))
                == Some((vj.0 as nat, s@.skip(vj.1 as int))),
            None => match parse_len(s@.skip(i as int)) {
                None => true,
                Some(p) => p.0 > s@.len(),
            },
        },
{
    let n = s.unicode_len();
    let ghost t: Seq<char> = s@.skip(i as int);
    proof {
        assert(forall|m: int| 0 <= m < t.len() ==> t[m] == s@[i + m]);
    }
    let mut k: usize = i;
    let mut val: u128 = 0;
    while k < n && is_digit_char(s.get_char(k))
        invariant
            i <= k <= n == s@.len() <= usize::MAX,
            t == s@.skip(i as int),
            forall|m: int| i <= m < k ==> is_digit(s@[m]),
            val == dec_val(s@.subrange(i as int, k as int)),
            val <= n,
        decreases n - k,
    {
        let c = s.get_char(k);
        let d: u128 = (c as u32 - 48) as u128;
        let newval: u128 = val * 10 + d;
        proof {
            assert(s@.subrange(i as int, k + 1).drop_last() =~= s@.subrange(i as int, k as int));
            assert(s@.subrange(i as int, k + 1).last() == s@[k as int]);
        }
        if newval > n as u128 {
            proof {
                let scanned = s@.subrange(i as int, k + 1);
                assert(dec_val(scanned) == newval);
                let kk = digits_prefix_len(t);
                lemma_digits_prefix_le(t);
                if parse_len(t) is Some {
                    let full = t.subrange(0, kk as int);
                    assert(forall|m: int| 0 <= m < k + 1 - i ==> is_digit(t[m]));
                    assert(kk >= k + 1 - i) by {
                        lemma_digits_prefix_len_lower(t, k + 1 - i);
                    }
                    assert(full.subrange(0, scanned.len() as int) =~= scanned);
                    lemma_dec_val_prefix_le(scanned, full);
                    assert(dec_val(full) >= newval);
                }
            }
            return None;
        }
        val = newval;
        k += 1;
    }
    proof {
        if (k as int - i as int) < t.len() {
            assert(t[k - i] == s@[k as int]);
        }
        lemma_digits_prefix_len_at(t, k - i);
    }
    if k == i {
        proof {
            assert(digits_prefix_len(t) == 0);
        }
        return None;
    }
    if k < n {
        let c = s.get_char(k);
        if c == ':' {
            proof {
                assert(t.subrange(0, k - i) =~= s@.subrange(i as int, k as int));
                assert(t.skip(k - i + 1) =~= s@.skip(k + 1));
                assert(parse_len(t) == Some((val as nat, s@.skip(k + 1))));
            }
            return Some((val as usize, k + 1));
        }
    }
    proof {
        assert(parse_len(t) is None);
    }
    None
}

/// The digit prefix never runs past the end of the string.
proof fn lemma_digits_prefix_le(s: Seq<char>)
    ensures
        digits_prefix_len(s) <= s.len(),
    decreases s.len(),
{
    if s.len() > 0 && is_digit(s[0]) {
        lemma_digits_prefix_le(s.drop_first());
    }
}

/// If the first `j` characters are digits, the digit prefix reaches `j`.
proof fn lemma_digits_prefix_len_lower(s: Seq<char>, j: int)
    requires
        0 <= j <= s.len(),
        forall|m: int| 0 <= m < j ==> is_digit(s[m]),
    ensures
        digits_prefix_len(s) >= j,
    decreases j,
{
    if j > 0 {
        assert(is_digit(s[0]));
        lemma_digits_prefix_len_lower(s.drop_first(), j - 1);
    }
}

proof fn lemma_parse_len_inverse(nn: nat, rest: Seq<char>)
    ensures
        parse_len(dec_digits(nn) + seq![':'] + rest) == Some((nn, rest)),
{
    let dd = dec_digits(nn);
    let s = dd + seq![':'] + rest;
    lemma_dec_digits_are_digits(nn);
    lemma_dec_digits_val(nn);
    assert(forall|m: int| 0 <= m < dd.len() ==> s[m] == dd[m]);
    assert(s[dd.len() as int] == ':');
    assert(!is_digit(':'));
    lemma_digits_prefix_len_at(s, dd.len() as int);
    assert(s.subrange(0, dd.len() as int) =~= dd);
    assert(s.skip(dd.len() as int + 1) =~= rest);
}

proof fn lemma_parse_msg_inverse(m: MessageView, rest: Seq<char>)
    ensures
        parse_msg(ser_msg(m) + rest) == Some((m, rest)),
        ser_msg(m).len() >= 4,
{
    let rl = m.role.len();
    let cl = m.content.len();
    lemma_dec_digits_are_digits(rl);
    lemma_dec_digits_are_digits(cl);
    let s = ser_msg(m) + rest;
    let tail1 = m.role + dec_digits(cl) + seq![':'] + m.content + rest;
    assert(s =~= dec_digits(rl) + seq![':'] + tail1);
    lemma_parse_len_inverse(rl, tail1);
    assert(parse_len(s) == Some((rl, tail1)));
    assert(tail1.len() >= rl);
    assert(tail1.subrange(0, rl as int) =~= m.role);
    let tail2 = m.content + rest;
    assert(tail1.skip(rl as int) =~= dec_digits(cl) + seq![':'] + tail2);
    lemma_parse_len_inverse(cl, tail2);
    assert(tail2.len() >= cl);
    assert(tail2.subrange(0, cl as int) =~= m.content);
    assert(tail2.skip(cl as int) =~= rest);
    assert(MessageView { role: tail1.subrange(0, rl as int), content: tail2.subrange(0, cl as int) }
        =~= m);
}

/// Round trip: parsing a serialized context yields exactly the messages that
/// were serialized, in their original order. A prior context emitted by one
/// call, fed back into the next, therefore reproduces the same history.
#[verifier::rlimit(60)]
pub proof fn lemma_context_round_trip(msgs: Seq<MessageView>)
    ensures
        ctx_parse(ctx_ser(msgs)) == Some(msgs),
    decreases msgs.len(),
{
    if msgs.len() == 0 {
        assert(ctx_parse(ctx_ser(msgs)) == Some(Seq::<MessageView>::empty()));
        assert(Seq::<MessageView>::empty() =~= msgs);
    } else {
        let m0 = msgs[0];
        let rest_msgs = msgs.drop_first();
        let rest_ser = ctx_ser(rest_msgs);
        lemma_parse_msg_inverse(m0, rest_ser);
        lemma_context_round_trip(rest_msgs);
        let s = ctx_ser(msgs);
        assert(s == ser_msg(m0) + rest_ser);
        assert(parse_msg(s) == Some((m0, rest_ser)));
        assert(rest_ser.len() < s.len());
        assert(ctx_parse(rest_ser) == Some(rest_msgs));
        assert(ctx_parse(s) == Some(seq![m0] + rest_msgs));
        assert(seq![m0] + rest_msgs =~= msgs);
    }
}

/// Reads one message record starting at character position `i`, mirroring
/// `parse_msg` on the remaining input.
fn parse_msg_at(s: &str, i: usize) -> (r: Option<(MessageRequest, usize)>)
    requires
        i <= s@.len(),
        s@.len() <= usize::MAX,
    ensures
        match r {
            Some(mj) => i < mj.1 <= s@.len() && parse_msg(s@.skip(i as int)) == Some(
                (mj.0@, s@.skip(mj.1 as int)),
            ),
            None => parse_msg(s@.skip(i as int)) is None,
        },
{
    let ghost t: Seq<char> = s@.skip(i as int);
    let n = s.unicode_len();
    let (rl, j) = match scan_len(s, i) {
        None => {
            return None;
        },
        Some(vj) => vj,
    };
    proof {
        assert(s@.skip(j as int).len() == n - j);
    }
    if n - j < rl {
        return None;
    }
    let role = String::from_str(s.substring_char(j, j + rl));
    proof {
        assert(s@.skip(j as int).subrange(0, rl as int) =~= s@.subrange(j as int, j + rl));
        assert(s@.skip(j as int).skip(rl as int) =~= s@.skip(j + rl));
    }
    let (cl, j2) = match scan_len(s, j + rl) {
        None => {
            return None;
        },
        Some(vj) => vj,
    };
    if n - j2 < cl {
        return None;
    }
    let content = String::from_str(s.substring_char(j2, j2 + cl));
    proof {
        assert(s@.skip(j2 as int).subrange(0, cl as int) =~= s@.subrange(j2 as int, j2 + cl));
        assert(s@.skip(j2 as int).skip(cl as int) =~= s@.skip(j2 + cl));
        let m = MessageView {
            role: s@.skip(j as int).subrange(0, rl as int),
            content: s@.skip(j2 as int).subrange(0, cl as int),
        };
        assert(parse_msg(t) == Some((m, s@.skip(j2 + cl))));
        assert(m =~= MessageView { role: role@, content: content@ });
    }
    Some((MessageRequest { role, content }, j2 + cl))
}

/// Parses a serialized context back into its messages. Succeeds exactly on
/// the strings `ctx_parse` accepts, with exactly the messages it reads;
/// anything else is a decode error.
pub fn parse_context(s: &str) -> (r: Result<Vec<MessageRequest>, BackendError>)
    ensures
        match ctx_parse(s@) {
            Some(ms) => r matches Ok(v) && v@.map_values(|m: MessageRequest| m@) == ms,
            None => r matches Err(e) && e == BackendError::DecodeError,
        },
{
    let n = s.unicode_len();
    let mut out: Vec<MessageRequest> = Vec::new();
    let mut i: usize = 0;
    proof {
        assert(s@.skip(0) =~= s@);
    }
    while i < n
        invariant
            i <= n == s@.len() <= usize::MAX,
            match ctx_parse(s@.skip(i as int)) {
                None => ctx_parse(s@) is None,
                Some(tail) => ctx_parse(s@) matches Some(all) && all == out@.map_values(
                    |m: MessageRequest| m@,
                ) + tail,
            },
        decreases n - i,
    {
        let ghost views: Seq<MessageView> = out@.map_values(|m: MessageRequest| m@);
        match parse_msg_at(s, i) {
            None => {
                proof {
                    assert(ctx_parse(s@.skip(i as int)) is None);
                }
                return Err(BackendError::DecodeError);
            },
            Some((m, j)) => {
                proof {
                    let t = s@.skip(i as int);
                    let rest = s@.skip(j as int);
                    assert(rest.len() < t.len());
                    assert(ctx_parse(t) == match ctx_parse(rest) {
                        None => None::<Seq<MessageView>>,
                        Some(ms) => Some(seq![m@] + ms),
                    });
                    if ctx_parse(rest) is Some {
                        let tail = ctx_parse(rest)->0;
                        assert(views + (seq![m@] + tail) =~= views.push(m@) + tail);
                        assert(out@.push(m).map_values(|mm: MessageRequest| mm@) =~= views.push(
                            m@,
                        ));
                    }
                }
                out.push(m);
                i = j;
            },
        }
    }
    proof {
        assert(s@.skip(n as int) =~= Seq::<char>::empty());
        assert(ctx_parse(Seq::<char>::empty()) == Some(Seq::<MessageView>::empty()));
        assert(out@.map_values(|m: MessageRequest| m@) + Seq::<MessageView>::empty()
            =~= out@.map_values(|m: MessageRequest| m@));
    }
    Ok(out)
}

} // verus!

