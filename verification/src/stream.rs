//! Accumulator and driver: consumes decoded lines in order, republishes each
//! non-empty fragment at once, and on stream end builds the single terminal
//! event carrying the updated serialized context.

use vstd::prelude::*;
use vstd::string::StringExecFns;

use crate::context::ctx_ser;
use crate::context::serialize_context;
use crate::decode::decode_line;
use crate::decode::decode_line_spec;
use crate::decode::ends_with_sentinel;
use crate::decode::payload_spec;
use crate::decode::trim_spec;
use crate::decode::LineOutcome;
use crate::decode::LineStep;
use crate::models::Author;
use crate::models::BackendError;
use crate::models::BackendResponse;
use crate::models::MessageRequest;
use crate::models::MessageView;

verus! {

/// What consuming a sequence of framed lines produces: the fragments in
/// order, whether decoding failed, and how many lines were consumed.
#[verifier::ext_equal]
pub struct RunOutcome {
    pub frags: Seq<Seq<char>>,
    pub failed: bool,
    pub consumed: nat,
}

/// Consumes lines in order until a sentinel stops the run, a payload fails
/// to decode, or the lines end.
pub open spec fn run_spec(lines: Seq<Seq<u8>>) -> RunOutcome
    decreases lines.len(),
{
    if lines.len() == 0 {
        RunOutcome { frags: Seq::<Seq<char>>::empty(), failed: false, consumed: 0 }
    } else {
        match decode_line_spec(lines[0]) {
            LineStep::Stop => RunOutcome {
                frags: Seq::<Seq<char>>::empty(),
                failed: false,
                consumed: 1,
            },
            LineStep::Fail => RunOutcome {
                frags: Seq::<Seq<char>>::empty(),
                failed: true,
                consumed: 1,
            },
            LineStep::Skip => {
                let r = run_spec(lines.drop_first());
                RunOutcome { frags: r.frags, failed: r.failed, consumed: 1 + r.consumed }
            },
            LineStep::Frag(f) => {
                let r = run_spec(lines.drop_first());
                RunOutcome { frags: seq![f] + r.frags, failed: r.failed, consumed: 1 + r.consumed }
            },
        }
    }
}

/// All fragments joined into the full reply.
pub open spec fn concat_frags(frags: Seq<Seq<char>>) -> Seq<char>
    decreases frags.len(),
{
    if frags.len() == 0 {
        Seq::<char>::empty()
    } else {
        frags[0] + concat_frags(frags.drop_first())
    }
}

proof fn lemma_concat_frags_snoc(frags: Seq<Seq<char>>, f: Seq<char>)
    ensures
        concat_frags(frags.push(f)) == concat_frags(frags) + f,
    decreases frags.len(),
{
    if frags.len() == 0 {
        assert(frags.push(f)[0] == f);
        assert(frags.push(f).drop_first() =~= Seq::<Seq<char>>::empty());
        assert(concat_frags(Seq::<Seq<char>>::empty()) == Seq::<char>::empty());
        assert(f + Seq::<char>::empty() =~= f);
        assert(concat_frags(frags) + f =~= f);
    } else {
        assert(frags.push(f).drop_first() =~= frags.drop_first().push(f));
        lemma_concat_frags_snoc(frags.drop_first(), f);
        assert(frags[0] + (concat_frags(frags.drop_first()) + f) =~= (frags[0] + concat_frags(
            frags.drop_first(),
        )) + f);
    }
}

/// Per-call decoding state: the request messages, the reply accumulated so
/// far, and (ghost) the fragments that built it.
pub struct StreamDecoder {
    messages: Vec<MessageRequest>,
    reply: String,
    frags: Ghost<Seq<Seq<char>>>,
}

impl StreamDecoder {
    /// The request messages this call was started with.
    pub closed spec fn messages_view(&self) -> Seq<MessageView> {
        self.messages@.map_values(|m: MessageRequest| m@)
    }

    /// The fragments emitted so far, in order.
    pub closed spec fn fragments(&self) -> Seq<Seq<char>> {
        self.frags@
    }

    /// The accumulated reply is always the concatenation of the fragments.
    pub closed spec fn wf(&self) -> bool {
        self.reply@ == concat_frags(self.frags@)
    }

    pub fn new(messages: Vec<MessageRequest>) -> (r: Self)
        ensures
            r.wf(),
            r.messages_view() == messages@.map_values(|m: MessageRequest| m@),
            r.fragments() == Seq::<Seq<char>>::empty(),
    {
        StreamDecoder { messages, reply: String::new(), frags: Ghost(Seq::empty()) }
    }

    /// Decodes one framed line; a returned fragment has also been appended to
    /// the accumulated reply and is to be emitted at once.
    pub fn feed_line(&mut self, line: &Vec<u8>) -> (r: Result<LineOutcome, BackendError>)
        requires
            old(self).wf(),
        ensures
            final(self).wf(),
            final(self).messages_view() == old(self).messages_view(),
            match decode_line_spec(line@) {
                LineStep::Stop => (r matches Ok(LineOutcome::Stop))
                    && final(self).fragments() == old(self).fragments(),
                LineStep::Skip => (r matches Ok(LineOutcome::Skip))
                    && final(self).fragments() == old(self).fragments(),
                LineStep::Frag(f) => (r matches Ok(LineOutcome::Fragment(s)) && s@ == f)
                    && final(self).fragments() == old(self).fragments().push(f),
                LineStep::Fail => (r matches Err(e) && e == BackendError::DecodeError)
                    && final(self).fragments() == old(self).fragments(),
            },
    {
        match decode_line(line) {
            Ok(LineOutcome::Fragment(s)) => {
                self.reply.append(s.as_str());
                proof {
                    lemma_concat_frags_snoc(self.frags@, s@);
                }
                self.frags = Ghost(self.frags@.push(s@));
                Ok(LineOutcome::Fragment(s))
            },
            other => other,
        }
    }

    /// Ends the call: appends the full reply as the assistant's message and
    /// builds the terminal event with the updated serialized context.
    pub fn finish(self) -> (r: BackendResponse)
        requires
            self.wf(),
        ensures
            r.author == Author::Model,
            r.done == true,
            r.text@ == Seq::<char>::empty(),
            r.context matches Some(c) && c@ == ctx_ser(
                self.messages_view().push(
                    MessageView { role: "assistant"@, content: concat_frags(self.fragments()) },
                ),
            ),
    {
        let ghost mv: Seq<MessageView> = self.messages_view();
        let ghost fr: Seq<Seq<char>> = self.fragments();
        let mut msgs = self.messages;
        msgs.push(MessageRequest { role: String::from_str("assistant"), content: self.reply });
        let ctx = serialize_context(&msgs);
        proof {
            assert(msgs@.map_values(|m: MessageRequest| m@) =~= mv.push(
                MessageView { role: "assistant"@, content: concat_frags(fr) },
            ));
        }
        BackendResponse {
            author: Author::Model,
            text: String::new(),
            done: true,
            context: Some(ctx),
        }
    }
}

/// How the events of one call relate to the decoded run of its lines: one
/// incremental event per fragment, in decoding order; on success exactly one
/// terminal event, last, whose context serializes the request messages
/// extended by an assistant message holding the concatenation of all emitted
/// fragments; on failure no terminal event and a decode error.
pub open spec fn events_follow_run(
    evs: Seq<BackendResponse>,
    st: Result<(), BackendError>,
    msgs: Seq<MessageView>,
    out: RunOutcome,
) -> bool {
    &&& (st matches Err(e) ==> e == BackendError::DecodeError)
    &&& (st is Err) == out.failed
    &&& evs.len() == out.frags.len() + (if out.failed {
        0int
    } else {
        1int
    })
    &&& forall|i: int|
        0 <= i < out.frags.len() ==> ((#[trigger] evs[i]).author == Author::Model && evs[i].done
            == false && evs[i].text@ == out.frags[i] && evs[i].context is None)
    &&& !out.failed ==> (evs.last().author == Author::Model && evs.last().done == true
        && evs.last().text@ == Seq::<char>::empty() && (evs.last().context matches Some(c) && c@
        == ctx_ser(
        msgs.push(MessageView { role: "assistant"@, content: concat_frags(out.frags) }),
    )))
    &&& !out.failed ==> concat_frags(
        evs.take(evs.len() - 1).map_values(|e: BackendResponse| e.text@),
    ) == concat_frags(out.frags)
}

/// Consumes a whole sequence of framed lines and returns every event the
/// call emits, in emission order, with the call's outcome.
///
/// On a decode failure the events are the incremental events emitted before
/// the failure and no terminal event; the context is not updated.
pub fn process_lines(messages: Vec<MessageRequest>, lines: &Vec<Vec<u8>>) -> (r: (
    Vec<BackendResponse>,
    Result<(), BackendError>,
))
    ensures
        events_follow_run(
            r.0@,
            r.1,
            messages@.map_values(|m: MessageRequest| m@),
            run_spec(lines@.map_values(|l: Vec<u8>| l@)),
        ),
{
    let ghost lviews: Seq<Seq<u8>> = lines@.map_values(|l: Vec<u8>| l@);
    let ghost full: RunOutcome = run_spec(lviews);
    let mut dec = StreamDecoder::new(messages);
    let mut events: Vec<BackendResponse> = Vec::new();
    let mut stopped = false;
    let mut i: usize = 0;
    proof {
        assert(lviews.skip(0) =~= lviews);
    }
    while i < lines.len() && !stopped
        invariant
            i <= lines@.len(),
            lviews == lines@.map_values(|l: Vec<u8>| l@),
            full == run_spec(lviews),
            dec.wf(),
            dec.messages_view() == messages@.map_values(|m: MessageRequest| m@),
            events@.len() == dec.fragments().len(),
            forall|j: int|
                0 <= j < events@.len() ==> ((#[trigger] events@[j]).author == Author::Model
                    && events@[j].done == false && events@[j].text@ == dec.fragments()[j]
                    && events@[j].context is None),
            !stopped ==> {
                let tail = run_spec(lviews.skip(i as int));
                full.frags == dec.fragments() + tail.frags && full.failed == tail.failed
            },
            stopped ==> full.frags == dec.fragments() && !full.failed,
        decreases lines@.len() - i,
    {
        let ghost tail: RunOutcome = run_spec(lviews.skip(i as int));
        proof {
            assert(lviews.skip(i as int)[0] == lviews[i as int]);
            assert(lviews.skip(i as int).drop_first() =~= lviews.skip(i + 1));
        }
        match dec.feed_line(&lines[i]) {
            Err(e) => {
                proof {
                    assert(tail.failed);
                    assert(tail.frags =~= Seq::<Seq<char>>::empty());
                    assert(full.frags =~= dec.fragments());
                }
                return (events, Err(e));
            },
            Ok(LineOutcome::Stop) => {
                proof {
                    assert(tail.frags =~= Seq::<Seq<char>>::empty());
                    assert(full.frags =~= dec.fragments());
                }
                stopped = true;
            },
            Ok(LineOutcome::Skip) => {},
            Ok(LineOutcome::Fragment(s)) => {
                let ghost f: Seq<char> = s@;
                events.push(
                    BackendResponse { author: Author::Model, text: s, done: false, context: None },
                );
                proof {
                    let next = run_spec(lviews.skip(i + 1));
                    assert(tail.frags == seq![f] + next.frags);
                    assert(dec.fragments() + next.frags =~= (dec.fragments().drop_last()) + (seq![f]
                        + next.frags)) by {
                        assert(dec.fragments().drop_last().push(f) =~= dec.fragments());
                    }
                }
            },
        }
        i += 1;
    }
    proof {
        if !stopped {
            assert(lviews.skip(i as int) =~= Seq::<Seq<u8>>::empty());
            assert(run_spec(Seq::<Seq<u8>>::empty()).frags =~= Seq::<Seq<char>>::empty());
            assert(full.frags =~= dec.fragments());
            assert(!full.failed);
        }
    }
    let ghost emitted: Seq<Seq<char>> = dec.fragments();
    let terminal = dec.finish();
    events.push(terminal);
    proof {
        assert(events@.take(events@.len() - 1).map_values(|e: BackendResponse| e.text@)
            =~~= emitted);
    }
    (events, Ok(()))
}

/// A line whose trimmed, prefix-stripped payload is empty is skipped: it is
/// no error, yields no fragment, and leaves the run of the remaining lines
/// unchanged.
pub proof fn lemma_blank_line_transparent(line: Seq<u8>, rest: Seq<Seq<u8>>)
    requires
        payload_spec(trim_spec(line)).len() == 0,
        !ends_with_sentinel(trim_spec(line)),
    ensures
        decode_line_spec(line) is Skip,
        run_spec(seq![line] + rest).frags == run_spec(rest).frags,
        run_spec(seq![line] + rest).failed == run_spec(rest).failed,
{
    assert((seq![line] + rest)[0] == line);
    assert((seq![line] + rest).drop_first() =~= rest);
}

/// A sentinel line stops the run at once: whatever lines follow it, even
/// unreadable ones, have no effect on the outcome.
pub proof fn lemma_sentinel_stops(lines: Seq<Seq<u8>>, k: int)
    requires
        0 <= k < lines.len(),
        decode_line_spec(lines[k]) is Stop,
        forall|j: int|
            0 <= j < k ==> ((#[trigger] decode_line_spec(lines[j])) is Skip || decode_line_spec(
                lines[j],
            ) is Frag),
    ensures
        run_spec(lines) == run_spec(lines.take(k + 1)),
    decreases k,
{
    let pre = lines.take(k + 1);
    assert(pre[0] == lines[0]);
    if k == 0 {
        assert(run_spec(lines) =~~= run_spec(pre));
    } else {
        let d = lines.drop_first();
        assert(forall|j: int| 0 <= j < k - 1 ==> #[trigger] d[j] == lines[j + 1]);
        assert(d[k - 1] == lines[k]);
        lemma_sentinel_stops(d, k - 1);
        assert(pre.drop_first() =~= d.take(k));
        assert(run_spec(lines) =~~= run_spec(pre));
    }
}

} // verus!
