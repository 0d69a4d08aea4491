//! The per-connection protocol: request validation, the exact response
//! lines, and the connection's request/response state machine.
//!
//! One connection is a sequence of line events. Each event is answered by
//! [`connection_step`]: a well-formed `isPrime` request gets a success line
//! and keeps the connection open; a malformed line or an unknown method gets
//! one terminal `invalidRequest` line; a disconnect gets nothing. The whole
//! exchange is [`spec_session`], and [`session_responses`] computes it.

use crate::oracle::{is_prime, wire_prime, WireNumber};
use vstd::prelude::*;

verus! {

/// One request, as parsed off a line of the wire: the method named by the
/// client and the number it asked about.
pub struct Request {
    pub method: String,
    pub number: WireNumber,
}

/// One response, as it will be serialized back to the client.
pub struct Response {
    pub method: String,
    pub prime: bool,
}

/// The responses this protocol emits name one of two methods, and an
/// `invalidRequest` response never claims primality.
pub open spec fn response_wf(r: Response) -> bool {
    r.method@ == "isPrime"@ || (r.method@ == "invalidRequest"@ && r.prime == false)
}

/// The serialized form of a response, newline terminator included.
pub open spec fn spec_response_line(method: Seq<char>, prime: bool) -> Seq<char> {
    "{\"method\":\""@ + method + "\",\"prime\":"@ + (if prime {
        "true"@
    } else {
        "false"@
    }) + "}\n"@
}

/// The one terminal line sent for any protocol violation.
pub open spec fn spec_invalid_line() -> Seq<char> {
    spec_response_line("invalidRequest"@, false)
}

/// The terminal response to a protocol violation.
pub fn invalid_response() -> (r: Response)
    ensures
        r.method@ == "invalidRequest"@,
        r.prime == false,
        response_wf(r),
{
    Response { method: "invalidRequest".to_owned(), prime: false }
}

/// Serializes a response into the exact line written to the wire.
pub fn render_response(response: &Response) -> (r: String)
    requires
        response_wf(*response),
    ensures
        r@ == spec_response_line(response.method@, response.prime),
{
    proof {
        reveal_strlit("{\"method\":\"");
        reveal_strlit("\",\"prime\":");
        reveal_strlit("true");
        reveal_strlit("false");
        reveal_strlit("}\n");
        reveal_strlit("isPrime");
        reveal_strlit("invalidRequest");
    }
    let invalid: String = "invalidRequest".to_owned();
    if response.method == invalid {
        let line: String = "{\"method\":\"invalidRequest\",\"prime\":false}\n".to_owned();
        proof {
            reveal_strlit("{\"method\":\"invalidRequest\",\"prime\":false}\n");
            assert(line@ =~= spec_response_line("invalidRequest"@, false));
        }
        line
    } else if response.prime {
        let line: String = "{\"method\":\"isPrime\",\"prime\":true}\n".to_owned();
        proof {
            reveal_strlit("{\"method\":\"isPrime\",\"prime\":true}\n");
            assert(line@ =~= spec_response_line("isPrime"@, true));
        }
        line
    } else {
        let line: String = "{\"method\":\"isPrime\",\"prime\":false}\n".to_owned();
        proof {
            reveal_strlit("{\"method\":\"isPrime\",\"prime\":false}\n");
            assert(line@ =~= spec_response_line("isPrime"@, false));
        }
        line
    }
}

/// Validates one request: the only known method is `isPrime`, and a request
/// for it is answered with the oracle's verdict on its number.
pub fn handle_request(request: Request) -> (r: Result<Response, &'static str>)
    ensures
        request.method@ == "isPrime"@ ==> r is Ok && r->Ok_0.method@ == "isPrime"@
            && r->Ok_0.prime == wire_prime(request.number),
        request.method@ != "isPrime"@ ==> r is Err && r->Err_0@ == "Unknown method."@,
        r is Ok ==> response_wf(r->Ok_0),
{
    let expected: String = "isPrime".to_owned();
    if request.method == expected {
        Ok(Response { method: "isPrime".to_owned(), prime: is_prime(request.number) })
    } else {
        Err("Unknown method.")
    }
}

/// What one iteration of the connection loop observes: the peer hung up
/// before completing a line, the line failed to parse as a request, or a
/// request was parsed.
pub enum LineEvent {
    Disconnected,
    Malformed,
    Parsed(Request),
}

/// The line written back for one event: nothing on a disconnect, the
/// success line for a valid request, the terminal line otherwise.
pub open spec fn spec_step_response(event: LineEvent) -> Option<Seq<char>> {
    match event {
        LineEvent::Disconnected => None,
        LineEvent::Malformed => Some(spec_invalid_line()),
        LineEvent::Parsed(req) => if req.method@ == "isPrime"@ {
            Some(spec_response_line("isPrime"@, wire_prime(req.number)))
        } else {
            Some(spec_invalid_line())
        },
    }
}

/// Whether the connection stays open after one event: only a valid request
/// keeps it open; violations and disconnects terminate it.
pub open spec fn spec_step_keeps_open(event: LineEvent) -> bool {
    match event {
        LineEvent::Parsed(req) => req.method@ == "isPrime"@,
        _ => false,
    }
}

/// One transition of the per-connection state machine: from the event the
/// reader observed to the line to write back (if any) and whether to keep
/// reading.
pub fn connection_step(event: LineEvent) -> (r: (Option<String>, bool))
    ensures
        r.1 == spec_step_keeps_open(event),
        (r.0 is Some) == (spec_step_response(event) is Some),
        r.0 is Some ==> r.0->Some_0@ == spec_step_response(event)->Some_0,
{
    match event {
        LineEvent::Disconnected => (None, false),
        LineEvent::Malformed => {
            let response = invalid_response();
            let line = render_response(&response);
            (Some(line), false)
        },
        LineEvent::Parsed(request) => match handle_request(request) {
            Ok(response) => {
                let line = render_response(&response);
                (Some(line), true)
            },
            Err(_) => {
                let response = invalid_response();
                let line = render_response(&response);
                (Some(line), false)
            },
        },
    }
}

/// The lines a whole connection writes, given the events its reader
/// observes in order: each event up to and including the first terminating
/// one is answered by its own response line, in the order received.
pub open spec fn spec_session(events: Seq<LineEvent>) -> Seq<Seq<char>>
    decreases events.len(),
{
    if events.len() == 0 {
        Seq::empty()
    } else {
        let rest = if spec_step_keeps_open(events[0]) {
            spec_session(events.drop_first())
        } else {
            Seq::<Seq<char>>::empty()
        };
        match spec_step_response(events[0]) {
            Some(line) => seq![line] + rest,
            None => rest,
        }
    }
}

/// Runs one connection's state machine over the events its reader observed,
/// returning every line written, in order.
pub fn session_responses(events: Vec<LineEvent>) -> (r: Vec<String>)
    ensures
        r@.map_values(|s: String| s@) == spec_session(events@),
{
    let mut pending = events;
    let mut out: Vec<String> = Vec::new();
    let mut open = true;
    while open && pending.len() > 0
        invariant
            open ==> spec_session(events@) == out@.map_values(|s: String| s@) + spec_session(
                pending@,
            ),
            !open ==> spec_session(events@) == out@.map_values(|s: String| s@),
        decreases pending.len(),
    {
        let ghost pre = pending@;
        let ghost out_pre = out@.map_values(|s: String| s@);
        let event = pending.remove(0);
        proof {
            assert(pending@ =~= pre.drop_first());
        }
        let step = connection_step(event);
        let line_opt = step.0;
        open = step.1;
        match line_opt {
            Some(line) => {
                let ghost line_view = line@;
                out.push(line);
                proof {
                    assert(out@.map_values(|s: String| s@) =~= out_pre.push(line_view));
                    if open {
                        assert(spec_session(pre) =~= seq![line_view] + spec_session(
                            pre.drop_first(),
                        ));
                        assert(out_pre + spec_session(pre) =~= out_pre.push(line_view)
                            + spec_session(pending@));
                    } else {
                        assert(spec_session(pre) =~= seq![line_view]);
                        assert(out_pre + spec_session(pre) =~= out_pre.push(line_view));
                    }
                }
            },
            None => {
                proof {
                    assert(spec_session(pre) =~= Seq::<Seq<char>>::empty());
                    assert(out_pre + spec_session(pre) =~= out_pre);
                }
            },
        }
    }
    proof {
        if open {
            assert(spec_session(pending@) =~= Seq::<Seq<char>>::empty());
            assert(out@.map_values(|s: String| s@) + spec_session(pending@) =~= out@.map_values(
                |s: String| s@,
            ));
        }
    }
    out
}

/// Responses answer requests strictly in order: while every event keeps the
/// connection open, the session's i-th response line answers the i-th event,
/// and nothing is skipped.
pub proof fn lemma_responses_in_request_order(events: Seq<LineEvent>)
    requires
        forall|j: int| 0 <= j < events.len() ==> #[trigger] spec_step_keeps_open(events[j]),
    ensures
        spec_session(events).len() == events.len(),
        forall|i: int|
            0 <= i < events.len() ==> #[trigger] spec_session(events)[i] == spec_step_response(
                events[i],
            )->Some_0,
    decreases events.len(),
{
    if events.len() > 0 {
        let rest = events.drop_first();
        assert(spec_step_keeps_open(events[0]));
        assert forall|j: int| 0 <= j < rest.len() implies #[trigger] spec_step_keeps_open(
            rest[j],
        ) by {
            assert(rest[j] == events[j + 1]);
        }
        lemma_responses_in_request_order(rest);
        let line = spec_step_response(events[0])->Some_0;
        assert(spec_session(events) =~= seq![line] + spec_session(rest));
        assert forall|i: int| 0 <= i < events.len() implies #[trigger] spec_session(events)[i]
            == spec_step_response(events[i])->Some_0 by {
            if i > 0 {
                assert(rest[i - 1] == events[i]);
                assert(spec_session(events)[i] == spec_session(rest)[i - 1]);
            }
        }
    }
}

} // verus!

