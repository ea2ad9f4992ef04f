//! The client side of the gpsd JSON protocol: framing of the byte stream into
//! `\r\n`-terminated lines, the version handshake that asks for a position watch,
//! and the queue of position fixes taken from TPV reports.
//!
//! Decoding a line's JSON happens outside; this module receives the decoded report.
//! The coordinate type `F` is generic: gpsd sends them as floating point numbers.

use std::collections::VecDeque;

use vstd::prelude::*;
use vstd::utf8::{decode_utf8, encode_utf8, encode_utf8_decode_utf8};

verus! {

#[verifier::external_type_specification]
#[verifier::external_body]
pub struct ExJsonError(serde_json::Error);

/// The request that asks gpsd to stream its reports as JSON.
pub const WATCH_REQUEST: &'static str = "?WATCH={\"enable\":true,\"json\":true}\n";

/// Where the client stands in the handshake.
#[derive(PartialEq, Eq, Structural, Clone, Copy, Debug)]
pub enum State {
    /// Waiting for gpsd's VERSION report.
    Initial,
    /// A supported version was announced; the watch request is due.
    ReadyToRequestWatch,
    /// The watch request was handed out; reports are streaming.
    ReceivingData,
}

/// Error estimate of a position fix, in meters.
#[derive(Clone, Debug)]
pub struct ErrorEstimate<F> {
    pub longitude_estimate_meters: F,
    pub latitude_estimate_meters: F,
}

/// A position fix.
#[derive(Clone, Debug)]
pub struct GpsMessage<F> {
    /// latitude in degrees. -90 to +90
    pub lat: F,
    /// longitude in degrees, -180 to +180
    pub lon: F,
    pub error_estimate: Option<ErrorEstimate<F>>,
}

/// The fields of a TPV report that the client reads; any may be absent.
#[derive(Debug)]
pub struct TpvMessage<F> {
    /// latitude in degrees. -90 to +90
    pub lat: Option<F>,
    /// longitude in degrees, -180 to +180
    pub lon: Option<F>,
    /// longitude error estimate in meters
    pub epx: Option<F>,
    /// latitude error estimate in meters
    pub exy: Option<F>,
}

/// The protocol version that gpsd announces.
#[derive(Clone, Copy, Debug, PartialEq, Eq, Structural)]
pub struct VersionMessage {
    pub proto_major: u32,
    pub proto_minor: u32,
}

/// A decoded protocol line.
#[derive(Debug)]
pub enum GpsdLine<F> {
    Version(VersionMessage),
    Tpv(TpvMessage<F>),
    /// A report of a class that the client does not use.
    Other,
}

/// Which report a line's `class` names.
#[derive(PartialEq, Eq, Structural, Clone, Copy, Debug)]
pub enum LineKind {
    Version,
    Tpv,
    Other,
}

#[derive(Debug)]
pub enum GpsdProtoError {
    /// A line could not be decoded as JSON.
    Json(serde_json::Error),
    /// gpsd speaks a protocol version other than 3.2 or a later 3.x.
    UnsupportedProtocolVersion(VersionMessage),
}

/// The error estimate of a TPV report: present where both estimates are.
pub open spec fn error_estimate_of<F>(tpv: TpvMessage<F>) -> Option<ErrorEstimate<F>> {
    match (tpv.epx, tpv.exy) {
        (Some(x), Some(y)) => Some(
            ErrorEstimate { longitude_estimate_meters: x, latitude_estimate_meters: y },
        ),
        _ => None,
    }
}

/// The fix a TPV report carries: one exists where both latitude and longitude do.
pub open spec fn fix_of<F>(tpv: TpvMessage<F>) -> Result<GpsMessage<F>, ()> {
    match (tpv.lat, tpv.lon) {
        (Some(lat), Some(lon)) => Ok(GpsMessage { lat, lon, error_estimate: error_estimate_of(tpv) }),
        _ => Err(()),
    }
}

impl<F> TryFrom<TpvMessage<F>> for GpsMessage<F> {
    type Error = ();

    fn try_from(value: TpvMessage<F>) -> (r: Result<Self, Self::Error>) {
        let lat = match value.lat {
            Some(lat) => lat,
            None => {
                return Err(());
            },
        };
        let lon = match value.lon {
            Some(lon) => lon,
            None => {
                return Err(());
            },
        };
        let error_estimate = match (value.epx, value.exy) {
            (Some(epx), Some(epy)) => Some(
                ErrorEstimate { longitude_estimate_meters: epx, latitude_estimate_meters: epy },
            ),
            _ => None,
        };
        Ok(GpsMessage { lat, lon, error_estimate })
    }
}

impl<F> vstd::std_specs::convert::TryFromSpecImpl<TpvMessage<F>> for GpsMessage<F> {
    open spec fn obeys_try_from_spec() -> bool {
        true
    }

    open spec fn try_from_spec(v: TpvMessage<F>) -> Result<Self, ()> {
        fix_of(v)
    }
}

/// Whether a protocol line, as decoded, is refused: it could not be decoded, or it
/// announces an unsupported version.
pub open spec fn line_refused<F>(line: Result<GpsdLine<F>, serde_json::Error>) -> bool {
    match line {
        Err(_) => true,
        Ok(GpsdLine::Version(v)) => !version_supported(v),
        Ok(_) => false,
    }
}

/// The handshake state after an accepted line.
pub open spec fn state_after_line<F>(s: State, line: GpsdLine<F>) -> State {
    match line {
        GpsdLine::Version(v) => if version_supported(v) {
            State::ReadyToRequestWatch
        } else {
            s
        },
        _ => s,
    }
}

/// The fixes a line adds to the queue: one for a TPV report with a position.
pub open spec fn fixes_of_line<F>(line: GpsdLine<F>) -> Seq<GpsMessage<F>> {
    match line {
        GpsdLine::Tpv(t) => match fix_of(t) {
            Ok(m) => seq![m],
            Err(_) => Seq::empty(),
        },
        _ => Seq::empty(),
    }
}

/// The queue of fixes after an accepted line.
pub open spec fn queue_after_line<F>(q: Seq<GpsMessage<F>>, line: GpsdLine<F>) -> Seq<GpsMessage<F>> {
    q + fixes_of_line(line)
}

/// The fixes that accepted lines add, in order.
pub open spec fn fixes_of_lines<F>(lines: Seq<GpsdLine<F>>) -> Seq<GpsMessage<F>>
    decreases lines.len(),
{
    if lines.len() == 0 {
        Seq::empty()
    } else {
        fixes_of_line(lines[0]) + fixes_of_lines(lines.drop_first())
    }
}

/// The queue after accepting the lines one after the other.
pub open spec fn queue_after_lines<F>(q: Seq<GpsMessage<F>>, lines: Seq<GpsdLine<F>>) -> Seq<
    GpsMessage<F>,
>
    decreases lines.len(),
{
    if lines.len() == 0 {
        q
    } else {
        queue_after_lines(queue_after_line(q, lines[0]), lines.drop_first())
    }
}

/// The error with which a refused line is refused.
pub open spec fn refusal_error<F>(line: Result<GpsdLine<F>, serde_json::Error>) -> GpsdProtoError
    recommends
        line_refused(line),
{
    match line {
        Err(e) => GpsdProtoError::Json(e),
        Ok(GpsdLine::Version(v)) => GpsdProtoError::UnsupportedProtocolVersion(v),
        Ok(_) => arbitrary(),
    }
}

/// The error of the first refused line, if any line is refused.
pub open spec fn first_refusal<F>(lines: Seq<Result<GpsdLine<F>, serde_json::Error>>) -> Option<
    GpsdProtoError,
>
    decreases lines.len(),
{
    if lines.len() == 0 {
        None
    } else if line_refused(lines[0]) {
        Some(refusal_error(lines[0]))
    } else {
        first_refusal(lines.drop_first())
    }
}

/// The lines before the first refused one, decoded.
pub open spec fn accepted_lines<F>(lines: Seq<Result<GpsdLine<F>, serde_json::Error>>) -> Seq<
    GpsdLine<F>,
>
    decreases lines.len(),
{
    if lines.len() == 0 || line_refused(lines[0]) {
        Seq::empty()
    } else {
        match lines[0] {
            Ok(l) => seq![l] + accepted_lines(lines.drop_first()),
            Err(_) => Seq::empty(),
        }
    }
}

/// The handshake state after accepting the lines one after the other.
pub open spec fn state_after_lines<F>(s: State, lines: Seq<GpsdLine<F>>) -> State
    decreases lines.len(),
{
    if lines.len() == 0 {
        s
    } else {
        state_after_lines(state_after_line(s, lines[0]), lines.drop_first())
    }
}

/// One `poll_output` on the model: the front of the queue, if any, and the queue after.
pub open spec fn poll_output_spec<F>(q: Seq<GpsMessage<F>>) -> (Option<GpsMessage<F>>, Seq<
    GpsMessage<F>,
>) {
    if q.len() == 0 {
        (None, q)
    } else {
        (Some(q[0]), q.drop_first())
    }
}

/// The results of `n` successive `poll_output` calls on queue `q`.
pub open spec fn poll_outputs<F>(q: Seq<GpsMessage<F>>, n: nat) -> Seq<Option<GpsMessage<F>>>
    decreases n,
{
    if n == 0 {
        Seq::empty()
    } else {
        seq![poll_output_spec(q).0] + poll_outputs(poll_output_spec(q).1, (n - 1) as nat)
    }
}

/// Whether the watch request is due.
pub open spec fn watch_due(s: State) -> bool {
    s == State::ReadyToRequestWatch
}

/// The handshake state after `poll_write`.
pub open spec fn state_after_poll_write(s: State) -> State {
    if watch_due(s) {
        State::ReceivingData
    } else {
        s
    }
}

/// The watch request goes out once for each accepted VERSION report: after one,
/// it is due; once handed out, it is not due again; no other line makes it due.
pub proof fn law_watch_request_once_per_version<F>(s: State, line: GpsdLine<F>)
    ensures
        line matches GpsdLine::Version(v) && version_supported(v) ==> watch_due(
            state_after_line(s, line),
        ),
        !watch_due(state_after_poll_write(s)),
        !(line matches GpsdLine::Version(v) && version_supported(v)) ==> state_after_line(s, line)
            == s,
{
}

/// Which VERSION reports are accepted: exactly those of protocol 3.2 and every
/// later 3.x. An accepted one makes the watch request due; a refused one changes
/// nothing.
pub proof fn law_version_acceptance<F>(s: State, v: VersionMessage)
    ensures
        line_refused(Ok::<GpsdLine<F>, serde_json::Error>(GpsdLine::Version(v))) <==> (v.proto_major
            != 3 || v.proto_minor < 2),
        (v.proto_major == 3 && v.proto_minor >= 2) ==> watch_due(
            state_after_line(s, GpsdLine::<F>::Version(v)),
        ),
        (v.proto_major != 3 || v.proto_minor < 2) ==> refusal_error(
            Ok::<GpsdLine<F>, serde_json::Error>(GpsdLine::Version(v)),
        ) == GpsdProtoError::UnsupportedProtocolVersion(v),
{
}

/// Whether a line is a VERSION report of a supported version.
pub open spec fn announces_supported_version<F>(line: GpsdLine<F>) -> bool {
    match line {
        GpsdLine::Version(v) => version_supported(v),
        _ => false,
    }
}

/// The watch request is handed out exactly when a supported VERSION report was
/// accepted since the last time it was handed out (or since the start): from a
/// state where it is not due (as after `new` and after every `poll_write`), it is
/// due after accepting some lines exactly when one of them is a supported VERSION.
pub proof fn law_watch_request_after_accepted_version<F>(s: State, lines: Seq<GpsdLine<F>>)
    requires
        !watch_due(s),
    ensures
        watch_due(state_after_lines(s, lines)) <==> exists|i: int|
            0 <= i < lines.len() && announces_supported_version(#[trigger] lines[i]),
    decreases lines.len(),
{
    if lines.len() > 0 {
        let s1 = state_after_line(s, lines[0]);
        let tail = lines.drop_first();
        if announces_supported_version(lines[0]) {
            lemma_watch_stays_due(s1, tail);
        } else {
            law_watch_request_after_accepted_version(s1, tail);
            if exists|i: int|
                0 <= i < lines.len() && announces_supported_version(#[trigger] lines[i])
            {
                let i = choose|i: int|
                    0 <= i < lines.len() && announces_supported_version(#[trigger] lines[i]);
                assert(tail[i - 1] == lines[i]);
            }
            if exists|j: int|
                0 <= j < tail.len() && announces_supported_version(#[trigger] tail[j])
            {
                let j = choose|j: int|
                    0 <= j < tail.len() && announces_supported_version(#[trigger] tail[j]);
                assert(lines[j + 1] == tail[j]);
            }
        }
    }
}

proof fn lemma_watch_stays_due<F>(s: State, lines: Seq<GpsdLine<F>>)
    requires
        watch_due(s),
    ensures
        watch_due(state_after_lines(s, lines)),
    decreases lines.len(),
{
    if lines.len() > 0 {
        lemma_watch_stays_due(state_after_line(s, lines[0]), lines.drop_first());
    }
}

/// Successive `poll_output` calls on a queue hand out its fixes in order, one per
/// call, and then nothing.
pub proof fn law_polls_drain_in_order<F>(q: Seq<GpsMessage<F>>)
    ensures
        poll_outputs(q, q.len() + 1) == q.map_values(|m: GpsMessage<F>| Some(m)).push(None),
    decreases q.len(),
{
    if q.len() == 0 {
        assert(poll_outputs(q, 0) =~= Seq::<Option<GpsMessage<F>>>::empty());
        assert(poll_outputs(q, 1) =~= seq![None]);
        assert(q.map_values(|m: GpsMessage<F>| Some(m)).push(None) =~= seq![None]);
    } else {
        law_polls_drain_in_order(q.drop_first());
        assert(q.map_values(|m: GpsMessage<F>| Some(m)).push(None) =~= seq![Some(q[0])]
            + q.drop_first().map_values(|m: GpsMessage<F>| Some(m)).push(None));
    }
}

/// From an empty queue, after accepting lines, `poll_output` hands out the fixes of
/// the TPV reports among them in the order they were accepted, and then nothing.
pub proof fn law_fixes_come_out_in_order<F>(lines: Seq<GpsdLine<F>>)
    ensures
        ({
            let fixes = fixes_of_lines(lines);
            poll_outputs(queue_after_lines(Seq::empty(), lines), fixes.len() + 1)
                == fixes.map_values(|m: GpsMessage<F>| Some(m)).push(None)
        }),
{
    law_fixes_first_in_first_out(Seq::empty(), lines);
    assert(Seq::<GpsMessage<F>>::empty() + fixes_of_lines(lines) =~= fixes_of_lines(lines));
    law_polls_drain_in_order(fixes_of_lines(lines));
}

/// Fixes come out first in, first out: the queue after accepting lines is the queue
/// before, followed by the fixes of those lines in order; `poll_output` hands out
/// the front of the queue.
pub proof fn law_fixes_first_in_first_out<F>(q: Seq<GpsMessage<F>>, lines: Seq<GpsdLine<F>>)
    ensures
        queue_after_lines(q, lines) == q + fixes_of_lines(lines),
    decreases lines.len(),
{
    if lines.len() == 0 {
        assert(q + Seq::<GpsMessage<F>>::empty() =~= q);
    } else {
        let q1 = queue_after_line(q, lines[0]);
        law_fixes_first_in_first_out(q1, lines.drop_first());
        assert(q1 + fixes_of_lines(lines.drop_first()) =~= q + fixes_of_lines(lines));
    }
}

/// gpsd protocol versions that the client speaks: 3.2 and later 3.x.
pub open spec fn version_supported(v: VersionMessage) -> bool {
    v.proto_major == 3 && v.proto_minor >= 2
}

/// Whether a `\r\n` starts at index `i` of `s`.
pub open spec fn crlf_at(s: Seq<u8>, i: int) -> bool {
    0 <= i && i + 1 < s.len() && s[i] == 13 && s[i + 1] == 10
}

/// The index of the first `\r\n` in `s` at or after `i`, if there is one.
pub open spec fn first_crlf_from(s: Seq<u8>, i: int) -> Option<int>
    decreases s.len() - i,
{
    if i < 0 || i + 1 >= s.len() {
        None
    } else if s[i] == 13 && s[i + 1] == 10 {
        Some(i)
    } else {
        first_crlf_from(s, i + 1)
    }
}

/// The index of the first `\r\n` in `s`, if there is one.
pub open spec fn first_crlf(s: Seq<u8>) -> Option<int> {
    first_crlf_from(s, 0)
}

/// Splits `s` at every `\r\n`, from the front: the lines before each of them, and
/// what follows the last one.
pub open spec fn crlf_split(s: Seq<u8>) -> (Seq<Seq<u8>>, Seq<u8>)
    decreases s.len(),
{
    match first_crlf(s) {
        Some(i) => if 0 <= i && i + 2 <= s.len() {
            let (lines, rest) = crlf_split(s.subrange(i + 2, s.len() as int));
            (seq![s.subrange(0, i)] + lines, rest)
        } else {
            (Seq::empty(), s)
        },
        None => (Seq::empty(), s),
    }
}

/// What `push_data` hands out and keeps, given the bytes kept so far and the new
/// bytes. Where bytes were kept, only the new bytes are searched for the `\r\n`
/// that completes them.
pub open spec fn push_data_outcome(pending: Seq<u8>, data: Seq<u8>) -> (Seq<Seq<u8>>, Seq<u8>) {
    if pending.len() == 0 {
        crlf_split(data)
    } else {
        match first_crlf(data) {
            Some(i) => {
                let (lines, rest) = crlf_split(data.subrange(i + 2, data.len() as int));
                (seq![pending + data.subrange(0, i)] + lines, rest)
            },
            None => (Seq::empty(), pending + data),
        }
    }
}

/// Lines, each followed by `\r\n`, one after the other.
pub open spec fn join_crlf(lines: Seq<Seq<u8>>) -> Seq<u8>
    decreases lines.len(),
{
    if lines.len() == 0 {
        Seq::empty()
    } else {
        lines[0] + seq![13u8, 10u8] + join_crlf(lines.drop_first())
    }
}

pub proof fn lemma_first_crlf_from_bounds(s: Seq<u8>, i: int)
    requires
        0 <= i,
    ensures
        first_crlf_from(s, i) matches Some(k) ==> i <= k && k + 2 <= s.len() && crlf_at(s, k)
            && forall|j: int| i <= j < k ==> !crlf_at(s, j),
        first_crlf_from(s, i) is None ==> forall|j: int| i <= j ==> !crlf_at(s, j),
    decreases s.len() - i,
{
    if i < 0 || i + 1 >= s.len() {
    } else if s[i] == 13 && s[i + 1] == 10 {
    } else {
        lemma_first_crlf_from_bounds(s, i + 1);
    }
}

/// Splitting at `\r\n` loses nothing: the lines, each followed by `\r\n`, and then
/// the rest, give back the input.
pub proof fn lemma_crlf_split_concat(s: Seq<u8>)
    ensures
        join_crlf(crlf_split(s).0) + crlf_split(s).1 == s,
    decreases s.len(),
{
    lemma_first_crlf_from_bounds(s, 0);
    match first_crlf(s) {
        Some(i) => {
            let tail = s.subrange(i + 2, s.len() as int);
            lemma_crlf_split_concat(tail);
            let (lines, rest) = crlf_split(tail);
            let all = seq![s.subrange(0, i)] + lines;
            assert(all.drop_first() =~= lines);
            assert(s =~= s.subrange(0, i) + seq![13u8, 10u8] + tail);
            assert(join_crlf(all) + rest =~= s.subrange(0, i) + seq![13u8, 10u8] + (join_crlf(lines)
                + rest));
        },
        None => {
            assert(join_crlf(Seq::<Seq<u8>>::empty()) =~= Seq::<u8>::empty());
            assert(Seq::<u8>::empty() + s =~= s);
        },
    }
}

/// Framing loses nothing: the lines that `push_data` hands out, each followed by
/// `\r\n`, and then the bytes it keeps, are the bytes kept before followed by the
/// new bytes.
pub proof fn law_push_data_loses_nothing(pending: Seq<u8>, data: Seq<u8>)
    ensures
        join_crlf(push_data_outcome(pending, data).0) + push_data_outcome(pending, data).1
            == pending + data,
{
    if pending.len() == 0 {
        lemma_crlf_split_concat(data);
        assert(pending + data =~= data);
    } else {
        lemma_first_crlf_from_bounds(data, 0);
        match first_crlf(data) {
            Some(i) => {
                let tail = data.subrange(i + 2, data.len() as int);
                lemma_crlf_split_concat(tail);
                let (lines, rest) = crlf_split(tail);
                let all = seq![pending + data.subrange(0, i)] + lines;
                assert(all.drop_first() =~= lines);
                assert(data =~= data.subrange(0, i) + seq![13u8, 10u8] + tail);
                assert(join_crlf(all) + rest =~= (pending + data.subrange(0, i)) + seq![13u8, 10u8]
                    + (join_crlf(lines) + rest));
                assert(join_crlf(all) + rest =~= pending + data);
            },
            None => {
                assert(join_crlf(Seq::<Seq<u8>>::empty()) =~= Seq::<u8>::empty());
                assert(Seq::<u8>::empty() + (pending + data) =~= pending + data);
            },
        }
    }
}

proof fn lemma_first_crlf_from_found(u: Seq<u8>, i: int, k: int)
    requires
        0 <= i <= k,
        crlf_at(u, k),
        forall|j: int| i <= j < k ==> !crlf_at(u, j),
    ensures
        first_crlf_from(u, i) == Some(k),
    decreases k - i,
{
    if i < k {
        assert(!crlf_at(u, i));
        lemma_first_crlf_from_found(u, i + 1, k);
    }
}

proof fn lemma_first_crlf_from_absent(u: Seq<u8>, i: int)
    requires
        0 <= i,
        forall|j: int| i <= j ==> !crlf_at(u, j),
    ensures
        first_crlf_from(u, i) is None,
    decreases u.len() - i,
{
    if i + 1 < u.len() {
        assert(!crlf_at(u, i));
        lemma_first_crlf_from_absent(u, i + 1);
    }
}

/// Whether a `\r\n` is cut in two between `a` and `b`.
pub open spec fn crlf_cut(a: Seq<u8>, b: Seq<u8>) -> bool {
    a.len() > 0 && b.len() > 0 && a.last() == 13 && b[0] == 10
}

proof fn lemma_first_crlf_extend(s: Seq<u8>, t: Seq<u8>)
    requires
        first_crlf(s) is Some,
    ensures
        first_crlf(s + t) == first_crlf(s),
{
    lemma_first_crlf_from_bounds(s, 0);
    let i = first_crlf(s)->0;
    let u = s + t;
    assert forall|j: int| 0 <= j < i implies !crlf_at(u, j) by {
        assert(!crlf_at(s, j));
        assert(u[j] == s[j] && u[j + 1] == s[j + 1]);
    }
    assert(u[i] == s[i] && u[i + 1] == s[i + 1]);
    lemma_first_crlf_from_found(u, 0, i);
}

proof fn lemma_first_crlf_after(s: Seq<u8>, t: Seq<u8>)
    requires
        first_crlf(s) is None,
        !crlf_cut(s, t),
    ensures
        first_crlf(s + t) == (match first_crlf(t) {
            Some(i) => Some(i + s.len()),
            None => None,
        }),
{
    lemma_first_crlf_from_bounds(s, 0);
    lemma_first_crlf_from_bounds(t, 0);
    let u = s + t;
    let n = s.len() as int;
    assert forall|j: int| 0 <= j < n implies !crlf_at(u, j) by {
        if j + 1 < n {
            assert(u[j] == s[j] && u[j + 1] == s[j + 1]);
            assert(!crlf_at(s, j));
        } else if j + 1 < u.len() {
            assert(u[j] == s.last() && u[j + 1] == t[0]);
        }
    }
    assert forall|j: int| n <= j implies crlf_at(u, j) == crlf_at(t, j - n) by {
        if n <= j && j + 1 < u.len() {
            assert(u[j] == t[j - n] && u[j + 1] == t[j - n + 1]);
        }
    }
    match first_crlf(t) {
        Some(i) => {
            assert(crlf_at(u, i + n));
            assert forall|j: int| 0 <= j < i + n implies !crlf_at(u, j) by {
                if j >= n {
                    assert(!crlf_at(t, j - n));
                }
            }
            lemma_first_crlf_from_found(u, 0, i + n);
        },
        None => {
            assert forall|j: int| 0 <= j implies !crlf_at(u, j) by {
                if j >= n {
                    assert(!crlf_at(t, j - n));
                }
            }
            lemma_first_crlf_from_absent(u, 0);
        },
    }
}

proof fn lemma_crlf_split_rest(s: Seq<u8>)
    ensures
        first_crlf(crlf_split(s).1) is None,
        crlf_split(s).1.len() <= s.len(),
        crlf_split(s).1.len() > 0 ==> crlf_split(s).1.last() == s.last(),
    decreases s.len(),
{
    lemma_first_crlf_from_bounds(s, 0);
    match first_crlf(s) {
        Some(i) => {
            let tail = s.subrange(i + 2, s.len() as int);
            lemma_crlf_split_rest(tail);
            if tail.len() > 0 {
                assert(tail.last() == s.last());
            }
        },
        None => {},
    }
}

proof fn lemma_crlf_split_append(s: Seq<u8>, t: Seq<u8>)
    requires
        !crlf_cut(s, t),
    ensures
        crlf_split(s + t) == (crlf_split(s).0 + crlf_split(crlf_split(s).1 + t).0, crlf_split(
            crlf_split(s).1 + t,
        ).1),
    decreases s.len(),
{
    lemma_first_crlf_from_bounds(s, 0);
    match first_crlf(s) {
        Some(i) => {
            lemma_first_crlf_extend(s, t);
            let u = s + t;
            let s1 = s.subrange(i + 2, s.len() as int);
            if s1.len() > 0 {
                assert(s1.last() == s.last());
            }
            lemma_crlf_split_append(s1, t);
            assert(u.subrange(i + 2, u.len() as int) =~= s1 + t);
            assert(u.subrange(0, i) =~= s.subrange(0, i));
            let m = crlf_split(crlf_split(s1).1 + t).0;
            assert(seq![s.subrange(0, i)] + (crlf_split(s1).0 + m) =~= (seq![s.subrange(0, i)]
                + crlf_split(s1).0) + m);
        },
        None => {
            assert(Seq::<Seq<u8>>::empty() + crlf_split(s + t).0 =~= crlf_split(s + t).0);
        },
    }
}

proof fn lemma_push_data_outcome_is_split(pending: Seq<u8>, b: Seq<u8>)
    requires
        first_crlf(pending) is None,
        !crlf_cut(pending, b),
    ensures
        push_data_outcome(pending, b) == crlf_split(pending + b),
{
    if pending.len() == 0 {
        assert(pending + b =~= b);
    } else {
        lemma_first_crlf_after(pending, b);
        lemma_first_crlf_from_bounds(b, 0);
        let u = pending + b;
        let n = pending.len() as int;
        match first_crlf(b) {
            Some(i) => {
                assert(u.subrange(0, i + n) =~= pending + b.subrange(0, i));
                assert(u.subrange(i + n + 2, u.len() as int) =~= b.subrange(i + 2, b.len() as int));
            },
            None => {},
        }
    }
}

/// How the stream is cut into reads does not matter, as long as no `\r\n` is cut
/// in two: taking `a` and then `b` hands out the same lines, in the same order, and
/// keeps the same bytes, as taking them together.
pub proof fn law_stream_cut_does_not_matter(pending: Seq<u8>, a: Seq<u8>, b: Seq<u8>)
    requires
        !crlf_cut(a, b),
    ensures
        ({
            let (lines1, kept1) = push_data_outcome(pending, a);
            let (lines2, kept2) = push_data_outcome(kept1, b);
            &&& lines1 + lines2 == push_data_outcome(pending, a + b).0
            &&& kept2 == push_data_outcome(pending, a + b).1
        }),
{
    lemma_first_crlf_from_bounds(a, 0);
    if pending.len() == 0 {
        lemma_crlf_split_append(a, b);
        lemma_crlf_split_rest(a);
        lemma_push_data_outcome_is_split(crlf_split(a).1, b);
    } else {
        match first_crlf(a) {
            Some(i) => {
                lemma_first_crlf_extend(a, b);
                let u = a + b;
                let a1 = a.subrange(i + 2, a.len() as int);
                if a1.len() > 0 {
                    assert(a1.last() == a.last());
                }
                lemma_crlf_split_append(a1, b);
                lemma_crlf_split_rest(a1);
                lemma_push_data_outcome_is_split(crlf_split(a1).1, b);
                assert(u.subrange(i + 2, u.len() as int) =~= a1 + b);
                assert(u.subrange(0, i) =~= a.subrange(0, i));
                let first = seq![pending + a.subrange(0, i)];
                let m = crlf_split(crlf_split(a1).1 + b).0;
                assert(first + (crlf_split(a1).0 + m) =~= (first + crlf_split(a1).0) + m);
            },
            None => {
                lemma_first_crlf_after(a, b);
                lemma_first_crlf_from_bounds(b, 0);
                let u = a + b;
                let n = a.len() as int;
                match first_crlf(b) {
                    Some(i) => {
                        assert(u.subrange(0, i + n) =~= a + b.subrange(0, i));
                        assert(u.subrange(i + n + 2, u.len() as int) =~= b.subrange(
                            i + 2,
                            b.len() as int,
                        ));
                        assert(pending + (a + b.subrange(0, i)) =~= (pending + a) + b.subrange(0, i));
                        let rest = crlf_split(b.subrange(i + 2, b.len() as int)).0;
                        assert(Seq::<Seq<u8>>::empty() + (seq![(pending + a) + b.subrange(0, i)]
                            + rest) =~= seq![(pending + a) + b.subrange(0, i)] + rest);
                    },
                    None => {
                        assert(pending + a + b =~= pending + (a + b));
                        assert(Seq::<Seq<u8>>::empty() + Seq::<Seq<u8>>::empty() =~= Seq::<
                            Seq<u8>,
                        >::empty());
                    },
                }
            },
        }
    }
}

/// Splits `input` at its first `\r\n`: the bytes before it and the bytes after it.
/// Where there is none, no line and the whole input.
pub fn split_at_newline(input: &[u8]) -> (r: (Option<&[u8]>, &[u8]))
    ensures
        match first_crlf(input@) {
            Some(i) => r.0 matches Some(line) && line@ == input@.subrange(0, i) && r.1@
                == input@.subrange(i + 2, input@.len() as int),
            None => r.0 is None && r.1@ == input@,
        },
{
    let mut i: usize = 0;
    proof {
        lemma_first_crlf_from_bounds(input@, 0);
    }
    while i < input.len() && i + 1 < input.len()
        invariant
            i <= input@.len(),
            first_crlf(input@) == first_crlf_from(input@, i as int),
        decreases input@.len() - i,
    {
        if input[i] == 13u8 && input[i + 1] == 10u8 {
            return (Some(&input[0..i]), &input[i + 2..input.len()]);
        }
        i = i + 1;
    }
    (None, input)
}

fn bytes_to_vec(s: &[u8]) -> (v: Vec<u8>)
    ensures
        v@ == s@,
{
    let mut v: Vec<u8> = Vec::new();
    v.extend_from_slice(s);
    assert(v@ =~= s@);
    v
}

fn bytes_equal(a: &[u8], b: &[u8]) -> (r: bool)
    ensures
        r == (a@ == b@),
{
    if a.len() != b.len() {
        return false;
    }
    let mut i: usize = 0;
    while i < a.len()
        invariant
            a@.len() == b@.len(),
            i <= a@.len(),
            forall|j: int| 0 <= j < i ==> a@[j] == b@[j],
        decreases a@.len() - i,
    {
        if a[i] != b[i] {
            return false;
        }
        i = i + 1;
    }
    assert(a@ =~= b@);
    true
}

fn str_equal(a: &str, b: &str) -> (r: bool)
    ensures
        r == (a@ == b@),
{
    let r = bytes_equal(a.as_bytes(), b.as_bytes());
    proof {
        encode_utf8_decode_utf8(a@);
        encode_utf8_decode_utf8(b@);
    }
    r
}

/// The report that a line's `class` member names: `VERSION`, `TPV`, or another.
pub fn line_kind(class: &str) -> (k: LineKind)
    ensures
        k == (if class@ == "VERSION"@ {
            LineKind::Version
        } else if class@ == "TPV"@ {
            LineKind::Tpv
        } else {
            LineKind::Other
        }),
{
    if str_equal(class, "VERSION") {
        LineKind::Version
    } else if str_equal(class, "TPV") {
        LineKind::Tpv
    } else {
        LineKind::Other
    }
}

/// The gpsd client's protocol state.
pub struct Protocol<F> {
    incomplete_data: Vec<u8>,
    messages: VecDeque<GpsMessage<F>>,
    state: State,
}

impl<F> Protocol<F> {
    /// The bytes received after the last `\r\n` that completed a line.
    pub closed spec fn pending(&self) -> Seq<u8> {
        self.incomplete_data@
    }

    /// The fixes not yet handed out, oldest first.
    pub closed spec fn queued(&self) -> Seq<GpsMessage<F>> {
        self.messages@
    }

    pub closed spec fn state(&self) -> State {
        self.state
    }

    pub fn new() -> (p: Self)
        ensures
            p.pending() == Seq::<u8>::empty(),
            p.queued() == Seq::<GpsMessage<F>>::empty(),
            p.state() == State::Initial,
    {
        Protocol { incomplete_data: Vec::new(), messages: VecDeque::new(), state: State::Initial }
    }

    /// Takes newly received bytes and hands out the protocol lines that they
    /// complete, in order, without their `\r\n`; keeps what follows the last one.
    pub fn push_data(&mut self, data: &[u8]) -> (lines: Vec<Vec<u8>>)
        ensures
            lines.deep_view() == push_data_outcome(old(self).pending(), data@).0,
            final(self).pending() == push_data_outcome(old(self).pending(), data@).1,
            final(self).queued() == old(self).queued(),
            final(self).state() == old(self).state(),
    {
        let ghost old_pending = self.incomplete_data@;
        let mut lines: Vec<Vec<u8>> = Vec::new();
        let mut rest = data;
        if self.incomplete_data.len() > 0 {
            if let (Some(first_line), next_rest) = split_at_newline(data) {
                rest = next_rest;
                self.incomplete_data.extend_from_slice(first_line);
                assert(self.incomplete_data@ =~= old_pending + first_line@);
                let mut line: Vec<u8> = Vec::new();
                std::mem::swap(&mut line, &mut self.incomplete_data);
                assert(line.deep_view() =~= line@);
                lines.push(line);
            }
        }
        let ghost expected = push_data_outcome(old_pending, data@);
        proof {
            lemma_first_crlf_from_bounds(data@, 0);
            if old_pending.len() > 0 && first_crlf(data@) is None {
                assert(crlf_split(data@) == (Seq::<Seq<u8>>::empty(), data@));
            } else {
                assert(self.incomplete_data@ + crlf_split(rest@).1 =~= crlf_split(rest@).1);
            }
        }
        assert(lines.deep_view() + crlf_split(rest@).0 =~= expected.0);
        loop
            invariant
                lines.deep_view() + crlf_split(rest@).0 == expected.0,
                self.incomplete_data@ + crlf_split(rest@).1 == expected.1,
                expected == push_data_outcome(old_pending, data@),
                self.messages@ == old(self).messages@,
                self.state == old(self).state,
            ensures
                lines.deep_view() == expected.0,
                self.incomplete_data@ + rest@ == expected.1,
            decreases rest@.len(),
        {
            proof {
                lemma_first_crlf_from_bounds(rest@, 0);
            }
            let (first, next) = split_at_newline(rest);
            match first {
                Some(current) => {
                    let ghost before = lines.deep_view();
                    let v = bytes_to_vec(current);
                    assert(v.deep_view() =~= v@);
                    lines.push(v);
                    assert(lines.deep_view() =~= before.push(current@));
                    let ghost tail_lines = crlf_split(next@).0;
                    assert(crlf_split(rest@).0 =~= seq![current@] + tail_lines);
                    assert(before.push(current@) + tail_lines =~= before + (seq![current@]
                        + tail_lines));
                    rest = next;
                },
                None => {
                    assert(lines.deep_view() + Seq::<Seq<u8>>::empty() =~= lines.deep_view());
                    break ;
                },
            }
        }
        let ghost kept = self.incomplete_data@;
        self.incomplete_data.extend_from_slice(rest);
        assert(self.incomplete_data@ =~= kept + rest@);
        lines
    }

    /// Acts on one protocol line as decoded: a VERSION report is checked, a TPV
    /// report's fix is queued, other reports are ignored. A line that could not be
    /// decoded, or announces an unsupported version, is refused and changes nothing.
    pub fn process_proto_line(&mut self, line: Result<GpsdLine<F>, serde_json::Error>) -> (r:
        Result<(), GpsdProtoError>)
        ensures
            r is Err <==> line_refused(line),
            r matches Err(e) ==> e == refusal_error(line),
            final(self).pending() == old(self).pending(),
            r is Err ==> final(self).state() == old(self).state() && final(self).queued() == old(
                self,
            ).queued(),
            line matches Ok(l) ==> (r is Ok ==> {
                &&& final(self).state() == state_after_line(old(self).state(), l)
                &&& final(self).queued() == queue_after_line(old(self).queued(), l)
            }),
    {
        match line {
            Ok(GpsdLine::Version(v)) => self.process_version_msg(v),
            Ok(GpsdLine::Tpv(t)) => self.process_tpv(t),
            Ok(GpsdLine::Other) => Ok(()),
            Err(e) => Err(GpsdProtoError::Json(e)),
        }
    }

    /// Acts on the decoded lines of one read, in order, up to the first refused
    /// one: the lines before it take effect; it and the lines after it do not, its
    /// refusal is the error, and the bytes kept for the next line are dropped, since
    /// the connection is then given up. Where no line is refused, all take effect
    /// and the kept bytes stay.
    pub fn process_lines(&mut self, lines: Vec<Result<GpsdLine<F>, serde_json::Error>>) -> (r:
        Result<(), GpsdProtoError>)
        ensures
            r is Err <==> first_refusal(lines@) is Some,
            r matches Err(e) ==> first_refusal(lines@) == Some(e),
            r is Err ==> final(self).pending() == Seq::<u8>::empty(),
            r is Ok ==> final(self).pending() == old(self).pending(),
            final(self).state() == state_after_lines(old(self).state(), accepted_lines(lines@)),
            final(self).queued() == queue_after_lines(old(self).queued(), accepted_lines(lines@)),
    {
        let ghost all = lines@;
        let mut rest = lines;
        loop
            invariant
                all == lines@,
                first_refusal(rest@) == first_refusal(all),
                state_after_lines(self.state, accepted_lines(rest@)) == state_after_lines(
                    old(self).state(),
                    accepted_lines(all),
                ),
                queue_after_lines(self.messages@, accepted_lines(rest@)) == queue_after_lines(
                    old(self).queued(),
                    accepted_lines(all),
                ),
                self.incomplete_data@ == old(self).pending(),
            decreases rest@.len(),
        {
            if rest.len() == 0 {
                return Ok(());
            }
            let ghost before = rest@;
            let line = rest.remove(0);
            assert(rest@ =~= before.drop_first());
            match self.process_proto_line(line) {
                Ok(()) => {
                    proof {
                        if let Ok(l) = before[0] {
                            let acc = accepted_lines(rest@);
                            assert(accepted_lines(before) == seq![l] + acc);
                            assert((seq![l] + acc)[0] == l);
                            assert((seq![l] + acc).drop_first() =~= acc);
                        }
                    }
                },
                Err(e) => {
                    self.incomplete_data.clear();
                    return Err(e);
                },
            }
        }
    }

    /// Hands out the watch request once, right after a supported version was announced.
    pub fn poll_write(&mut self) -> (r: Option<&'static [u8]>)
        ensures
            watch_due(old(self).state()) ==> (r matches Some(b) && b@ == encode_utf8(WATCH_REQUEST@)),
            !watch_due(old(self).state()) ==> r is None,
            final(self).state() == state_after_poll_write(old(self).state()),
            final(self).pending() == old(self).pending(),
            final(self).queued() == old(self).queued(),
    {
        if self.state == State::ReadyToRequestWatch {
            self.state = State::ReceivingData;
            Some(WATCH_REQUEST.as_bytes())
        } else {
            None
        }
    }

    /// Hands out the oldest queued fix.
    pub fn poll_output(&mut self) -> (r: Option<GpsMessage<F>>)
        ensures
            (r, final(self).queued()) == poll_output_spec(old(self).queued()),
            final(self).pending() == old(self).pending(),
            final(self).state() == old(self).state(),
    {
        self.messages.pop_front()
    }

    /// Hands out the newest queued fix and drops the older ones: only the current
    /// position is of interest.
    pub fn take_latest_output(&mut self) -> (r: Option<GpsMessage<F>>)
        ensures
            old(self).queued().len() == 0 ==> r is None,
            old(self).queued().len() > 0 ==> r == Some(old(self).queued().last()),
            final(self).queued() == Seq::<GpsMessage<F>>::empty(),
            final(self).pending() == old(self).pending(),
            final(self).state() == old(self).state(),
    {
        let latest = self.messages.pop_back();
        self.messages.clear();
        latest
    }

    fn process_version_msg(&mut self, version: VersionMessage) -> (r: Result<(), GpsdProtoError>)
        ensures
            r is Ok <==> version_supported(version),
            r matches Err(e) ==> e == GpsdProtoError::UnsupportedProtocolVersion(version),
            final(self).state() == (if version_supported(version) {
                State::ReadyToRequestWatch
            } else {
                old(self).state()
            }),
            final(self).queued() == old(self).queued(),
            final(self).pending() == old(self).pending(),
    {
        if version.proto_major != 3 || version.proto_minor < 2 {
            return Err(GpsdProtoError::UnsupportedProtocolVersion(version));
        }
        self.state = State::ReadyToRequestWatch;
        Ok(())
    }

    fn process_tpv(&mut self, msg: TpvMessage<F>) -> (r: Result<(), GpsdProtoError>)
        ensures
            r is Ok,
            final(self).queued() == (match fix_of(msg) {
                Ok(m) => old(self).queued().push(m),
                Err(_) => old(self).queued(),
            }),
            final(self).state() == old(self).state(),
            final(self).pending() == old(self).pending(),
    {
        let fix: Result<GpsMessage<F>, ()> = GpsMessage::try_from(msg);
        if let Ok(gps) = fix {
            self.messages.push_back(gps);
        }
        Ok(())
    }
}

} // verus!
