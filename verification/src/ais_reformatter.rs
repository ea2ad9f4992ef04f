//! Turns received AIS bytes into forwarded lines, each prefixed with an NMEA 4.0
//! tag block (`\c:<unix time>,<position>*<checksum>\`).

use std::sync::Arc;
use std::time::{Duration, SystemTime};

use vstd::prelude::*;
use vstd::utf8::{encode_scalar, encode_utf8};

use crate::position::{share_position, PositionCell};

verus! {

/// `String::clear`: afterwards the string holds no characters.
pub assume_specification[ String::clear ](string: &mut String)
    ensures
        final(string)@ == Seq::<char>::empty(),
;

/// `String::push`: appends exactly the given character.
pub assume_specification[ String::push ](string: &mut String, ch: char)
    ensures
        final(string)@ == old(string)@.push(ch),
;

/// `String::push_str`: appends exactly the characters of the given string slice.
pub assume_specification[ String::push_str ](string: &mut String, other: &str)
    ensures
        final(string)@ == old(string)@ + other@,
;

#[verifier::external_type_specification]
#[verifier::external_body]
pub struct ExSystemTime(SystemTime);

/// Reads the wall clock (`SystemTime::now`). Nothing is promised of the value.
#[verifier::external_body]
fn system_time_now() -> SystemTime {
    SystemTime::now()
}

/// The time from the unix epoch to `t` (`SystemTime::duration_since` with
/// `UNIX_EPOCH`); `None` where `t` lies before the epoch. The clock value is opaque
/// here, so nothing is stated of the result.
#[verifier::external_body]
fn duration_since_unix_epoch(t: &SystemTime) -> Option<Duration> {
    t.duration_since(std::time::UNIX_EPOCH).ok()
}

/// The whole seconds of `d` (`Duration::as_secs`). The duration is opaque here, so
/// nothing is stated of the number.
#[verifier::external_body]
fn whole_secs(d: &Duration) -> u64 {
    d.as_secs()
}

/// The wall clock reads a time before the unix epoch, so no time field can be written.
#[derive(Debug, Clone, Copy, PartialEq, Eq, Structural)]
pub enum ClockError {
    BeforeUnixEpoch,
}

/// Exclusive-or of all bytes of `data`, folded from the left starting at zero.
pub open spec fn xor_fold(data: Seq<u8>) -> u8
    decreases data.len(),
{
    if data.len() == 0 {
        0
    } else {
        xor_fold(data.drop_last()) ^ data.last()
    }
}

/// The NMEA checksum of `data`: all bytes combined with exclusive-or.
pub fn calculate_checksum(data: &[u8]) -> (cs: u8)
    ensures
        cs == xor_fold(data@),
{
    let mut cs: u8 = 0;
    let mut i: usize = 0;
    while i < data.len()
        invariant
            i <= data@.len(),
            cs == xor_fold(data@.subrange(0, i as int)),
        decreases data@.len() - i,
    {
        assert(data@.subrange(0, i + 1).drop_last() == data@.subrange(0, i as int));
        cs = cs ^ data[i];
        i = i + 1;
    }
    assert(data@.subrange(0, data@.len() as int) == data@);
    cs
}

/// The decimal digit character for `d < 10`.
pub open spec fn decimal_digit(d: nat) -> char {
    (d + 48) as char
}

/// The decimal representation of `n`, without sign or leading zeros (as `Display` writes it).
pub open spec fn decimal(n: nat) -> Seq<char>
    decreases n,
{
    if n < 10 {
        seq![decimal_digit(n)]
    } else {
        decimal(n / 10).push(decimal_digit(n % 10))
    }
}

/// The upper-case hexadecimal digit character for `d < 16`.
pub open spec fn hex_digit(d: nat) -> char {
    if d < 10 {
        (d + 48) as char
    } else {
        (d + 55) as char
    }
}

/// Two upper-case hexadecimal digits of a byte (as `{:02X}` writes it).
pub open spec fn hex_byte(b: u8) -> Seq<char> {
    seq![hex_digit((b / 16) as nat), hex_digit((b % 16) as nat)]
}

/// The characters of an optional string slice.
pub open spec fn text_of(s: Option<&str>) -> Option<Seq<char>> {
    match s {
        Some(t) => Some(t@),
        None => None,
    }
}

/// The time field of a tag block: `c:` and the unix time in seconds.
pub open spec fn time_field(time: Option<u64>) -> Seq<char> {
    match time {
        Some(t) => seq!['c', ':'] + decimal(t as nat),
        None => Seq::empty(),
    }
}

/// The position field of a tag block: a comma and the position text.
pub open spec fn position_field(position: Option<Seq<char>>) -> Seq<char> {
    match position {
        Some(p) => seq![','] + p,
        None => Seq::empty(),
    }
}

/// What stands between the opening backslash and the `*` of a tag block.
pub open spec fn tag_body(time: Option<u64>, position: Option<Seq<char>>) -> Seq<char> {
    time_field(time) + position_field(position)
}

/// The tag block for the given fields: `\<body>*<checksum>\`, where the checksum is
/// the exclusive-or of the UTF-8 bytes of the body; empty where there is no field.
pub open spec fn tag_block(time: Option<u64>, position: Option<Seq<char>>) -> Seq<char> {
    let body = tag_body(time, position);
    if body.len() == 0 {
        Seq::empty()
    } else {
        seq!['\\'] + body + seq!['*'] + hex_byte(xor_fold(encode_utf8(body))) + seq!['\\']
    }
}

/// What the prefix buffer holds after a tag block was built into it.
pub open spec fn prefix_buffer_after(time: Option<u64>, position: Option<Seq<char>>) -> Seq<char> {
    if tag_body(time, position).len() == 0 {
        seq!['\\']
    } else {
        tag_block(time, position)
    }
}

fn push_decimal(s: &mut String, n: u64)
    ensures
        final(s)@ == old(s)@ + decimal(n as nat),
    decreases n,
{
    if n >= 10 {
        push_decimal(s, n / 10);
    }
    let d: u8 = (n % 10) as u8;
    let c: char = (d + 48) as char;
    assert(c == decimal_digit((n % 10) as nat));
    s.push(c);
}

fn hex_char(d: u8) -> (c: char)
    requires
        d < 16,
    ensures
        c == hex_digit(d as nat),
{
    if d < 10 {
        (d + 48) as char
    } else {
        (d + 55) as char
    }
}

proof fn lemma_encode_backslash_prefix(body: Seq<char>)
    ensures
        encode_utf8(seq!['\\'] + body) == seq![92u8] + encode_utf8(body),
{
    let s = seq!['\\'] + body;
    assert(s[0] == '\\');
    assert(s.drop_first() =~= body);
    assert(92u32 & 0x7F == 92) by (bit_vector);
    assert(('\\' as u32) == 92);
    assert(encode_scalar(92) =~= seq![92u8]);
}

/// Builds the tag block for a known time (if any) and position (if any) into
/// `prefix` and returns it; returns the empty string where neither is given.
pub fn build_prefix_at<'b>(
    prefix: &'b mut String,
    current_time: Option<u64>,
    gps_pos: Option<&str>,
) -> (r: &'b str)
    ensures
        r@ == tag_block(current_time, text_of(gps_pos)),
        final(prefix)@ == prefix_buffer_after(current_time, text_of(gps_pos)),
{
    let ghost position = text_of(gps_pos);
    prefix.clear();
    prefix.push('\\');
    if let Some(t) = current_time {
        prefix.push('c');
        prefix.push(':');
        push_decimal(prefix, t);
    }
    assert(prefix@ =~= seq!['\\'] + time_field(current_time));
    if let Some(p) = gps_pos {
        prefix.push(',');
        prefix.push_str(p);
    }
    assert(prefix@ =~= seq!['\\'] + tag_body(current_time, position));
    if current_time.is_some() || gps_pos.is_some() {
        let ghost body = tag_body(current_time, position);
        proof {
            lemma_encode_backslash_prefix(body);
        }
        let bytes = prefix.as_str().as_bytes();
        assert(bytes@.subrange(1, bytes@.len() as int) =~= encode_utf8(body));
        let checksum = calculate_checksum(&bytes[1..bytes.len()]);
        prefix.push('*');
        prefix.push(hex_char(checksum / 16));
        prefix.push(hex_char(checksum % 16));
        prefix.push('\\');
        assert(prefix@ =~= tag_block(current_time, position));
        prefix.as_str()
    } else {
        let empty = "";
        proof {
            reveal_strlit("");
        }
        assert(empty@ =~= tag_block(current_time, position));
        empty
    }
}

/// The time field to write: none where `add_time_prefix` is unset, else the
/// current unix time in whole seconds. Fails only where the time is asked for and
/// the clock reads a time before the unix epoch.
fn current_time_field(add_time_prefix: bool) -> (r: Result<Option<u64>, ClockError>)
    ensures
        !add_time_prefix ==> r == Ok::<Option<u64>, ClockError>(None),
        add_time_prefix ==> r is Err || r matches Ok(Some(_)),
{
    if add_time_prefix {
        let now = system_time_now();
        match duration_since_unix_epoch(&now) {
            Some(d) => Ok(Some(whole_secs(&d))),
            None => Err(ClockError::BeforeUnixEpoch),
        }
    } else {
        Ok(None)
    }
}

/// Builds the tag block into `prefix`: the current unix time where `add_time_prefix`
/// is set, and the position where one is given. Fails only where the time is asked
/// for and the clock reads a time before the unix epoch.
pub fn build_prefix<'b>(
    prefix: &'b mut String,
    add_time_prefix: bool,
    gps_pos: Option<&str>,
) -> (r: Result<&'b str, ClockError>)
    ensures
        !add_time_prefix ==> r is Ok,
        r is Err ==> add_time_prefix && final(prefix)@ == old(prefix)@,
        r matches Ok(p) ==> exists|t: Option<u64>|
            (t is Some <==> add_time_prefix) && p@ == tag_block(t, text_of(gps_pos))
                && final(prefix)@ == prefix_buffer_after(t, text_of(gps_pos)),
{
    match current_time_field(add_time_prefix) {
        Ok(current_time) => Ok(build_prefix_at(prefix, current_time, gps_pos)),
        Err(e) => Err(e),
    }
}

/// Progress of splitting `s` at line feeds: the pieces closed by a line feed so
/// far, and the piece still open after the last one.
pub open spec fn split_progress(s: Seq<u8>) -> (Seq<Seq<u8>>, Seq<u8>)
    decreases s.len(),
{
    if s.len() == 0 {
        (Seq::empty(), Seq::empty())
    } else {
        let (done, open) = split_progress(s.drop_last());
        if s.last() == 10 {
            (done.push(open), Seq::empty())
        } else {
            (done, open.push(s.last()))
        }
    }
}

/// The pieces of `s` between line feeds, as `<[u8]>::split` yields them: always one
/// more piece than there are line feeds.
pub open spec fn newline_pieces(s: Seq<u8>) -> Seq<Seq<u8>> {
    split_progress(s).0.push(split_progress(s).1)
}

/// A piece with one trailing carriage return removed, if it has one.
pub open spec fn strip_carriage_return(piece: Seq<u8>) -> Seq<u8> {
    if piece.len() > 0 && piece.last() == 13 {
        piece.drop_last()
    } else {
        piece
    }
}

/// The output line for one piece: none where the piece is empty once its carriage
/// return is stripped, else the prefix, the stripped piece and a line feed.
pub open spec fn framed_piece(prefix: Seq<u8>, piece: Seq<u8>) -> Seq<Seq<u8>> {
    let line = strip_carriage_return(piece);
    if line.len() == 0 {
        Seq::empty()
    } else {
        seq![prefix + line + seq![10u8]]
    }
}

/// The output lines for a sequence of pieces, in order.
pub open spec fn framed_pieces(prefix: Seq<u8>, pieces: Seq<Seq<u8>>) -> Seq<Seq<u8>>
    decreases pieces.len(),
{
    if pieces.len() == 0 {
        Seq::empty()
    } else {
        framed_pieces(prefix, pieces.drop_last()) + framed_piece(prefix, pieces.last())
    }
}

/// The lines forwarded for a chunk of received bytes: every non-empty line of the
/// chunk (without its carriage return), between `prefix` and a line feed.
pub open spec fn prefixed_lines(prefix: Seq<u8>, chunk: Seq<u8>) -> Seq<Seq<u8>> {
    framed_pieces(prefix, newline_pieces(chunk))
}

fn push_framed_piece(prefix: &[u8], piece: &[u8], output_buf: &mut Vec<Vec<u8>>)
    ensures
        final(output_buf).deep_view() == old(output_buf).deep_view() + framed_piece(
            prefix@,
            piece@,
        ),
{
    let n = piece.len();
    let line: &[u8] = if n > 0 && piece[n - 1] == 13u8 {
        &piece[0..n - 1]
    } else {
        piece
    };
    assert(line@ =~= strip_carriage_return(piece@));
    if line.len() > 0 {
        let mut v: Vec<u8> = Vec::new();
        v.extend_from_slice(prefix);
        v.extend_from_slice(line);
        v.push(10u8);
        assert(v@ =~= prefix@ + line@ + seq![10u8]);
        assert(v.deep_view() =~= v@);
        let ghost before = output_buf.deep_view();
        output_buf.push(v);
        assert(output_buf.deep_view() =~= before.push(v@));
        assert(output_buf.deep_view() =~= before + framed_piece(prefix@, piece@));
    } else {
        assert(old(output_buf).deep_view() + framed_piece(prefix@, piece@) =~= old(
            output_buf,
        ).deep_view());
    }
}

/// Appends to `output_buf`, in order, every non-empty line of `chunk` with one
/// trailing carriage return removed, each between `prefix` and a line feed.
pub fn append_prefixed_lines(prefix: &[u8], chunk: &[u8], output_buf: &mut Vec<Vec<u8>>)
    ensures
        final(output_buf).deep_view() == old(output_buf).deep_view() + prefixed_lines(
            prefix@,
            chunk@,
        ),
{
    let mut start: usize = 0;
    let mut i: usize = 0;
    assert(chunk@.subrange(0, 0) =~= Seq::<u8>::empty());
    assert(old(output_buf).deep_view() + Seq::<Seq<u8>>::empty() =~= old(output_buf).deep_view());
    while i < chunk.len()
        invariant
            start <= i <= chunk@.len(),
            split_progress(chunk@.subrange(0, i as int)).1 == chunk@.subrange(start as int, i as int),
            output_buf.deep_view() == old(output_buf).deep_view() + framed_pieces(
                prefix@,
                split_progress(chunk@.subrange(0, i as int)).0,
            ),
        decreases chunk@.len() - i,
    {
        let ghost done = split_progress(chunk@.subrange(0, i as int)).0;
        assert(chunk@.subrange(0, i + 1).drop_last() =~= chunk@.subrange(0, i as int));
        if chunk[i] == 10u8 {
            push_framed_piece(prefix, &chunk[start..i], output_buf);
            assert(done.push(chunk@.subrange(start as int, i as int)).drop_last() =~= done);
            start = i + 1;
            assert(chunk@.subrange(start as int, i + 1) =~= Seq::<u8>::empty());
        } else {
            assert(chunk@.subrange(start as int, i + 1) =~= chunk@.subrange(start as int, i as int).push(chunk@[i as int]));
        }
        i = i + 1;
    }
    assert(chunk@.subrange(0, chunk@.len() as int) =~= chunk@);
    let ghost done = split_progress(chunk@).0;
    push_framed_piece(prefix, &chunk[start..chunk.len()], output_buf);
    assert(newline_pieces(chunk@).drop_last() =~= done);
}

proof fn lemma_split_progress_after_newline(x: Seq<u8>, b: Seq<u8>)
    requires
        split_progress(x).1 == Seq::<u8>::empty(),
    ensures
        split_progress(x + b) == (split_progress(x).0 + split_progress(b).0, split_progress(b).1),
    decreases b.len(),
{
    if b.len() == 0 {
        assert(x + b =~= x);
        assert(split_progress(x).0 + Seq::<Seq<u8>>::empty() =~= split_progress(x).0);
    } else {
        let b0 = b.drop_last();
        lemma_split_progress_after_newline(x, b0);
        assert((x + b).drop_last() =~= x + b0);
        assert((x + b).last() == b.last());
        let e = split_progress(x).0;
        let (d0, c0) = split_progress(b0);
        if b.last() == 10 {
            assert((e + d0).push(c0) =~= e + d0.push(c0));
        }
    }
}

proof fn lemma_framed_pieces_concat(prefix: Seq<u8>, p: Seq<Seq<u8>>, q: Seq<Seq<u8>>)
    ensures
        framed_pieces(prefix, p + q) == framed_pieces(prefix, p) + framed_pieces(prefix, q),
    decreases q.len(),
{
    if q.len() == 0 {
        assert(p + q =~= p);
        assert(framed_pieces(prefix, p) + Seq::<Seq<u8>>::empty() =~= framed_pieces(prefix, p));
    } else {
        lemma_framed_pieces_concat(prefix, p, q.drop_last());
        assert((p + q).drop_last() =~= p + q.drop_last());
        assert((p + q).last() == q.last());
        assert(framed_pieces(prefix, p) + framed_pieces(prefix, q.drop_last()) + framed_piece(
            prefix,
            q.last(),
        ) =~= framed_pieces(prefix, p) + (framed_pieces(prefix, q.drop_last()) + framed_piece(
            prefix,
            q.last(),
        )));
    }
}

/// Splitting received data at a line feed does not change what is forwarded: the
/// lines of the bytes before it and the lines of the bytes after it are the lines
/// of the whole.
pub proof fn law_framing_splits_at_newline(prefix: Seq<u8>, a: Seq<u8>, b: Seq<u8>)
    ensures
        prefixed_lines(prefix, a + seq![10u8] + b) == prefixed_lines(prefix, a) + prefixed_lines(
            prefix,
            b,
        ),
{
    let x = a + seq![10u8];
    assert(x.drop_last() =~= a);
    assert(x.last() == 10);
    lemma_split_progress_after_newline(x, b);
    let (da, ca) = split_progress(a);
    let (db, cb) = split_progress(b);
    assert(newline_pieces(a + seq![10u8] + b) =~= newline_pieces(a) + newline_pieces(b));
    lemma_framed_pieces_concat(prefix, newline_pieces(a), newline_pieces(b));
}

/// The shape of a forwarded line: the prefix, at least one byte that is not a line
/// feed, and a closing line feed.
pub open spec fn forwarded_line_shape(prefix: Seq<u8>, line: Seq<u8>) -> bool {
    &&& line.len() >= prefix.len() + 2
    &&& line.subrange(0, prefix.len() as int) == prefix
    &&& line.last() == 10
    &&& forall|i: int| prefix.len() <= i < line.len() - 1 ==> line[i] != 10
}

proof fn lemma_split_pieces_have_no_newline(s: Seq<u8>)
    ensures
        forall|k: int, i: int|
            0 <= k < split_progress(s).0.len() && 0 <= i < split_progress(s).0[k].len()
                ==> split_progress(s).0[k][i] != 10,
        forall|i: int| 0 <= i < split_progress(s).1.len() ==> split_progress(s).1[i] != 10,
    decreases s.len(),
{
    if s.len() > 0 {
        let s0 = s.drop_last();
        lemma_split_pieces_have_no_newline(s0);
        let (d0, c0) = split_progress(s0);
        if s.last() == 10 {
            let d = d0.push(c0);
            assert forall|k: int, i: int| 0 <= k < d.len() && 0 <= i < d[k].len() implies d[k][i]
                != 10 by {
                if k < d0.len() {
                    assert(d[k] == d0[k]);
                } else {
                    assert(d[k] == c0);
                }
            }
        } else {
            let c = c0.push(s.last());
            assert forall|i: int| 0 <= i < c.len() implies c[i] != 10 by {
                if i < c0.len() {
                    assert(c[i] == c0[i]);
                }
            }
        }
    }
}

proof fn lemma_framed_pieces_shape(prefix: Seq<u8>, pieces: Seq<Seq<u8>>)
    requires
        forall|k: int, i: int| 0 <= k < pieces.len() && 0 <= i < pieces[k].len() ==> pieces[k][i] != 10,
    ensures
        forall|k: int|
            0 <= k < framed_pieces(prefix, pieces).len() ==> forwarded_line_shape(
                prefix,
                #[trigger] framed_pieces(prefix, pieces)[k],
            ),
    decreases pieces.len(),
{
    if pieces.len() > 0 {
        let init = pieces.drop_last();
        assert forall|k: int, i: int| 0 <= k < init.len() && 0 <= i < init[k].len() implies init[k][i]
            != 10 by {
            assert(init[k] == pieces[k]);
        }
        lemma_framed_pieces_shape(prefix, init);
        let piece = pieces.last();
        let line = strip_carriage_return(piece);
        if line.len() > 0 {
            let out = prefix + line + seq![10u8];
            assert(out.subrange(0, prefix.len() as int) =~= prefix);
            assert forall|i: int| prefix.len() <= i < out.len() - 1 implies out[i] != 10 by {
                assert(out[i] == line[i - prefix.len()]);
                assert(line[i - prefix.len()] == piece[i - prefix.len()]);
                assert(piece == pieces[pieces.len() - 1]);
            }
            assert(forwarded_line_shape(prefix, out));
        }
        let whole = framed_pieces(prefix, pieces);
        let front = framed_pieces(prefix, init);
        assert forall|k: int| 0 <= k < whole.len() implies forwarded_line_shape(prefix, #[trigger] whole[k]) by {
            if k < front.len() {
                assert(whole[k] == front[k]);
            } else {
                assert(whole[k] == prefix + line + seq![10u8]);
            }
        }
    }
}

/// Every forwarded line is the prefix, a non-empty payload without line feeds, and
/// one closing line feed.
pub proof fn law_forwarded_lines_shape(prefix: Seq<u8>, chunk: Seq<u8>)
    ensures
        forall|k: int|
            0 <= k < prefixed_lines(prefix, chunk).len() ==> forwarded_line_shape(
                prefix,
                #[trigger] prefixed_lines(prefix, chunk)[k],
            ),
{
    lemma_split_pieces_have_no_newline(chunk);
    let pieces = newline_pieces(chunk);
    let (d, c) = split_progress(chunk);
    assert forall|k: int, i: int| 0 <= k < pieces.len() && 0 <= i < pieces[k].len() implies pieces[k][i]
        != 10 by {
        if k < d.len() {
            assert(pieces[k] == d[k]);
        } else {
            assert(pieces[k] == c);
        }
    }
    lemma_framed_pieces_shape(prefix, pieces);
}

/// Whether `c` is an upper-case hexadecimal digit.
pub open spec fn is_upper_hex(c: char) -> bool {
    (48 <= c as u32 && c as u32 <= 57) || (65 <= c as u32 && c as u32 <= 70)
}

/// The value of an upper-case hexadecimal digit.
pub open spec fn upper_hex_value(c: char) -> int {
    if c as u32 <= 57 {
        c as u32 - 48
    } else {
        c as u32 - 55
    }
}

/// The number that a string of decimal digits denotes.
pub open spec fn decimal_value(digits: Seq<char>) -> int
    decreases digits.len(),
{
    if digits.len() == 0 {
        0
    } else {
        decimal_value(digits.drop_last()) * 10 + (digits.last() as u32 - 48)
    }
}

proof fn lemma_hex_digit_value(d: nat)
    requires
        d < 16,
    ensures
        is_upper_hex(hex_digit(d)),
        upper_hex_value(hex_digit(d)) == d,
{
    if d < 10 {
        assert(((d + 48) as char) as u32 == d + 48);
    } else {
        assert(((d + 55) as char) as u32 == d + 55);
    }
}

/// The time written into a tag block reads back as that time: `decimal` gives only
/// decimal digits, without a leading zero (but for zero itself), whose value is `n`.
pub proof fn law_decimal_reads_back(n: nat)
    ensures
        decimal(n).len() > 0,
        forall|i: int| 0 <= i < decimal(n).len() ==> 48 <= #[trigger] decimal(n)[i] as u32 <= 57,
        decimal(n).len() > 1 ==> decimal(n)[0] != '0',
        decimal_value(decimal(n)) == n,
    decreases n,
{
    let d = n % 10;
    assert(((d + 48) as char) as u32 == d + 48);
    if n >= 10 {
        law_decimal_reads_back(n / 10);
        let front = decimal(n / 10);
        let all = front.push(decimal_digit(d));
        assert(all.drop_last() =~= front);
        assert forall|i: int| 0 <= i < all.len() implies 48 <= #[trigger] all[i] as u32 <= 57 by {
            if i < front.len() {
                assert(all[i] == front[i]);
            }
        }
        assert(all[0] == front[0]);
        if front.len() == 1 {
            assert(decimal_value(front) == decimal_value(front.drop_last()) * 10 + (front.last() as u32
                - 48));
            assert(front.drop_last().len() == 0);
            assert(front[0] as u32 - 48 == n / 10);
            assert(n / 10 > 0);
        }
        assert(all.last() == decimal_digit(d));
        assert(decimal_value(all) == decimal_value(front) * 10 + (all.last() as u32 - 48));
        assert(decimal_value(all) == (n / 10) * 10 + d);
        assert((n / 10) * 10 + n % 10 == n) by (nonlinear_arith);
        assert(decimal(n) == all);
    } else {
        let s = seq![decimal_digit(n)];
        assert(s.drop_last() =~= Seq::<char>::empty());
        assert(d == n);
        assert(decimal_value(s) == decimal_value(s.drop_last()) * 10 + (s.last() as u32 - 48));
        assert(decimal_value(Seq::<char>::empty()) == 0);
    }
}

/// The layout of a tag block: where any field is given, it is a backslash, the
/// fields, a `*`, exactly two upper-case hexadecimal digits whose value is the
/// exclusive-or of the UTF-8 bytes of the fields, and a closing backslash; the time
/// field is `c:` and the decimal time, the position field a comma and the position
/// text, in that order. Where no field is given, it is empty.
pub proof fn law_tag_block_layout(time: Option<u64>, position: Option<Seq<char>>)
    ensures
        ({
            let fields = (match time {
                Some(t) => seq!['c', ':'] + decimal(t as nat),
                None => Seq::<char>::empty(),
            }) + (match position {
                Some(p) => seq![','] + p,
                None => Seq::<char>::empty(),
            });
            let block = tag_block(time, position);
            let n = block.len();
            &&& (time is None && position is None) ==> block.len() == 0
            &&& (time is Some || position is Some) ==> {
                &&& n == fields.len() + 5
                &&& block[0] == '\\'
                &&& block.subrange(1, n - 4) == fields
                &&& block[n - 4] == '*'
                &&& is_upper_hex(block[n - 3])
                &&& is_upper_hex(block[n - 2])
                &&& upper_hex_value(block[n - 3]) * 16 + upper_hex_value(block[n - 2]) == xor_fold(
                    encode_utf8(fields),
                )
                &&& block[n - 1] == '\\'
            }
        }),
{
    let body = tag_body(time, position);
    if time is Some || position is Some {
        assert(body.len() > 0);
        let cs = xor_fold(encode_utf8(body));
        let block = tag_block(time, position);
        let n = block.len();
        lemma_hex_digit_value((cs / 16) as nat);
        lemma_hex_digit_value((cs % 16) as nat);
        assert(block =~= seq!['\\'] + body + seq!['*'] + hex_byte(cs) + seq!['\\']);
        assert(block.subrange(1, n - 4) =~= body);
        assert(block[n - 3] == hex_digit((cs / 16) as nat));
        assert(block[n - 2] == hex_digit((cs % 16) as nat));
        assert((cs / 16) * 16 + cs % 16 == cs);
    } else {
        assert(body =~= Seq::<char>::empty());
    }
}

proof fn lemma_split_progress_without_newline(s: Seq<u8>)
    requires
        forall|i: int| 0 <= i < s.len() ==> s[i] != 10,
    ensures
        split_progress(s) == (Seq::<Seq<u8>>::empty(), s),
    decreases s.len(),
{
    if s.len() > 0 {
        let s0 = s.drop_last();
        assert forall|i: int| 0 <= i < s0.len() implies s0[i] != 10 by {
            assert(s0[i] == s[i]);
        }
        lemma_split_progress_without_newline(s0);
        assert(s0.push(s.last()) =~= s);
    }
}

/// A line is forwarded whole: a piece without line feeds gives one output line, the
/// prefix, all its bytes (without one trailing carriage return) and a line feed;
/// none where nothing is left once that carriage return is removed.
pub proof fn law_line_forwarded_whole(prefix: Seq<u8>, piece: Seq<u8>)
    requires
        forall|i: int| 0 <= i < piece.len() ==> piece[i] != 10,
    ensures
        ({
            let payload = if piece.len() > 0 && piece[piece.len() - 1] == 13 {
                piece.subrange(0, piece.len() - 1)
            } else {
                piece
            };
            &&& payload.len() > 0 ==> prefixed_lines(prefix, piece) == seq![prefix + payload + seq![10u8]]
            &&& payload.len() == 0 ==> prefixed_lines(prefix, piece).len() == 0
        }),
{
    lemma_split_progress_without_newline(piece);
    let pieces = newline_pieces(piece);
    assert(pieces =~= seq![piece]);
    assert(pieces.drop_last() =~= Seq::<Seq<u8>>::empty());
    assert(framed_pieces(prefix, Seq::<Seq<u8>>::empty()) =~= Seq::<Seq<u8>>::empty());
    if piece.len() > 0 && piece[piece.len() - 1] == 13 {
        assert(piece.subrange(0, piece.len() - 1) =~= piece.drop_last());
    }
    assert(Seq::<Seq<u8>>::empty() + framed_piece(prefix, piece) =~= framed_piece(prefix, piece));
}

/// Formats received AIS data for forwarding. Clones read the same position cell.
pub struct Formatter {
    latest_gps: Arc<PositionCell>,
    add_time_prefix: bool,
    prefix_buffer: String,
}

impl Formatter {
    /// Whether forwarded lines carry the time of their arrival.
    pub closed spec fn adds_time_prefix(&self) -> bool {
        self.add_time_prefix
    }

    /// The cell from which the position is read.
    pub closed spec fn position_cell(&self) -> Arc<PositionCell> {
        self.latest_gps
    }

    /// What the buffer in which tag blocks are built holds.
    pub closed spec fn prefix_buffer(&self) -> Seq<char> {
        self.prefix_buffer@
    }

    pub fn new(latest_gps: Arc<PositionCell>, add_time_prefix: bool) -> (f: Self)
        ensures
            f.adds_time_prefix() == add_time_prefix,
            f.position_cell() == latest_gps,
            f.prefix_buffer() == Seq::<char>::empty(),
    {
        Formatter { latest_gps, add_time_prefix, prefix_buffer: String::new() }
    }

    /// Appends the forwarded form of every non-empty line of `chunk` to `output_buf`,
    /// behind the tag block for the given time (if any) and position (if any).
    pub fn format_chunk_at(
        &mut self,
        current_time: Option<u64>,
        gps_pos: Option<&str>,
        chunk: &[u8],
        output_buf: &mut Vec<Vec<u8>>,
    )
        ensures
            final(self).adds_time_prefix() == old(self).adds_time_prefix(),
            final(self).position_cell() == old(self).position_cell(),
            final(self).prefix_buffer() == prefix_buffer_after(current_time, text_of(gps_pos)),
            final(output_buf).deep_view() == old(output_buf).deep_view() + prefixed_lines(
                encode_utf8(tag_block(current_time, text_of(gps_pos))),
                chunk@,
            ),
    {
        let prefix = build_prefix_at(&mut self.prefix_buffer, current_time, gps_pos);
        append_prefixed_lines(prefix.as_bytes(), chunk, output_buf);
    }

    /// Appends the forwarded form of every non-empty line of `chunk` to `output_buf`,
    /// behind one tag block built from the current time (where asked for) and the
    /// latest position (where one is known). Fails, appending nothing, only where
    /// the time is asked for and the clock reads a time before the unix epoch.
    pub fn process_complete_chunk(&mut self, chunk: &[u8], output_buf: &mut Vec<Vec<u8>>) -> (r:
        Result<(), ClockError>)
        ensures
            final(self).adds_time_prefix() == old(self).adds_time_prefix(),
            final(self).position_cell() == old(self).position_cell(),
            !old(self).adds_time_prefix() ==> r is Ok,
            r is Err ==> final(output_buf).deep_view() == old(output_buf).deep_view(),
            r is Ok ==> exists|t: Option<u64>, p: Option<Seq<char>>|
                #![trigger tag_block(t, p)]
                (t is Some <==> old(self).adds_time_prefix()) && final(output_buf).deep_view()
                    == old(output_buf).deep_view() + prefixed_lines(
                    encode_utf8(tag_block(t, p)),
                    chunk@,
                ) && final(self).prefix_buffer() == prefix_buffer_after(t, p),
    {
        let gps = self.latest_gps.load();
        let gps_pos: Option<&str> = match &gps {
            Some(s) => Some(s.as_str()),
            None => None,
        };
        match current_time_field(self.add_time_prefix) {
            Ok(current_time) => {
                self.format_chunk_at(current_time, gps_pos, chunk, output_buf);
                assert(tag_block(current_time, text_of(gps_pos)) == tag_block(
                    current_time,
                    text_of(gps_pos),
                ));
                Ok(())
            },
            Err(e) => Err(e),
        }
    }
}

impl Clone for Formatter {
    fn clone(&self) -> (r: Self)
        ensures
            r.adds_time_prefix() == self.adds_time_prefix(),
            r.position_cell() == self.position_cell(),
            r.prefix_buffer() == self.prefix_buffer(),
    {
        Formatter {
            latest_gps: share_position(&self.latest_gps),
            add_time_prefix: self.add_time_prefix,
            prefix_buffer: self.prefix_buffer.clone(),
        }
    }
}

} // verus!
