//! The line decoder: turns the raw bytes of a history file into logical
//! records.  Three byte-level concerns are handled here:
//!
//! * splitting the byte stream into physical lines at each newline byte,
//!   dropping a carriage return directly before the terminator;
//! * undoing the shell's metafication: a marker byte `0x83` followed by
//!   another byte within the same line stands for that byte XOR `0x20`;
//! * validating each unmasked line as text.
//!
//! The decoded physical lines are then trimmed of trailing whitespace and
//! joined into logical records: a line ending in a backslash continues on
//! the next physical line, the backslash is kept verbatim, and the join
//! point is a literal newline.  A trailing partial record at end of file is
//! emitted rather than discarded.
use crate::errors::HistoryError;
use crate::text::{is_space, is_space_char, spec_u64_string, u64_to_string};
use vstd::prelude::*;
use vstd::utf8::{decode_utf8, encode_utf8, encode_utf8_decode_utf8, valid_utf8};

verus! {

/// The metafication marker byte.
pub open spec fn meta_marker() -> u8 {
    0x83
}

/// The bytes of one physical line with the metafication undone: each
/// occurrence of the marker byte followed by another byte collapses to that
/// byte XOR `0x20`; a marker byte with nothing after it is kept as it is.
pub open spec fn unmetafy(b: Seq<u8>) -> Seq<u8>
    decreases b.len(),
{
    if b.len() == 0 {
        Seq::empty()
    } else if b[0] == meta_marker() && b.len() >= 2 {
        seq![(b[1] ^ 0x20)] + unmetafy(b.skip(2))
    } else {
        seq![b[0]] + unmetafy(b.skip(1))
    }
}

/// The first position at or after `i` holding a newline byte, or the length
/// of `b` when there is none.
pub open spec fn first_newline_from(b: Seq<u8>, i: int) -> int
    recommends
        0 <= i <= b.len(),
    decreases b.len() - i,
{
    if i < 0 || i >= b.len() {
        b.len() as int
    } else if b[i] == 0x0A {
        i
    } else {
        first_newline_from(b, i + 1)
    }
}

/// The first newline position lies between `i` and the end of `b`.
pub proof fn lemma_first_newline_bounds(b: Seq<u8>, i: int)
    requires
        0 <= i <= b.len(),
    ensures
        i <= first_newline_from(b, i) <= b.len(),
    decreases b.len() - i,
{
    if i < b.len() && b[i] != 0x0A {
        lemma_first_newline_bounds(b, i + 1);
    }
}

/// The physical lines of a byte stream: one line before every newline byte,
/// and a final line for trailing bytes after the last newline, if any.
pub open spec fn split_lines(b: Seq<u8>) -> Seq<Seq<u8>>
    decreases b.len(),
    via split_lines_decreases
{
    if b.len() == 0 {
        Seq::empty()
    } else {
        let e = first_newline_from(b, 0);
        if e >= b.len() {
            seq![b]
        } else {
            seq![b.take(e)] + split_lines(b.skip(e + 1))
        }
    }
}

#[via_fn]
proof fn split_lines_decreases(b: Seq<u8>) {
    if b.len() > 0 {
        lemma_first_newline_bounds(b, 0);
    }
}

/// Whether every physical line of `b` is valid text after unmasking.
pub open spec fn all_lines_valid(b: Seq<u8>) -> bool {
    forall|i: int|
        0 <= i < split_lines(b).len() ==> valid_utf8(unmetafy(#[trigger] split_lines(b)[i]))
}

/// The first physical line (0-based) that is not valid text after
/// unmasking, or the number of lines when all are valid.
pub open spec fn first_bad_line(ls: Seq<Seq<u8>>, i: int) -> int
    recommends
        0 <= i <= ls.len(),
    decreases ls.len() - i,
{
    if i < 0 || i >= ls.len() {
        ls.len() as int
    } else if !valid_utf8(unmetafy(ls[i])) {
        i
    } else {
        first_bad_line(ls, i + 1)
    }
}

/// Whether the byte stream ends with a newline byte, so that even its last
/// physical line has a terminator.
pub open spec fn ends_newline(b: Seq<u8>) -> bool {
    b.len() > 0 && b.last() == 0x0A
}

/// `s` without a single trailing carriage return, if it has one.
pub open spec fn strip_cr(s: Seq<char>) -> Seq<char> {
    if s.len() > 0 && s.last() == '\r' {
        s.drop_last()
    } else {
        s
    }
}

/// Whether the `i`-th physical line of `b` was ended by a newline byte:
/// every line but the last is, and the last is exactly when the stream
/// ends with a newline.
pub open spec fn line_terminated(b: Seq<u8>, i: int) -> bool {
    i + 1 < split_lines(b).len() || ends_newline(b)
}

/// The decoded physical lines of a byte stream, assuming all are valid.
/// A carriage return directly before a line's newline terminator is
/// dropped with it; a trailing line without a terminator is kept whole.
pub open spec fn decoded_lines(b: Seq<u8>) -> Seq<Seq<char>> {
    Seq::new(
        split_lines(b).len(),
        |i: int|
            {
                let d = decode_utf8(unmetafy(split_lines(b)[i]));
                if line_terminated(b, i) {
                    strip_cr(d)
                } else {
                    d
                }
            },
    )
}

/// Removes one trailing carriage return, if present.
fn strip_trailing_cr(s: String) -> (r: String)
    ensures
        r@ == strip_cr(s@),
{
    let n = s.as_str().unicode_len();
    if n > 0 && s.as_str().get_char(n - 1) == '\r' {
        let r = s.as_str().substring_char(0, n - 1).to_owned();
        proof {
            assert(r@ =~= strip_cr(s@));
        }
        r
    } else {
        s
    }
}

/// `s` without its trailing whitespace characters.
pub open spec fn trim_end_spec(s: Seq<char>) -> Seq<char>
    decreases s.len(),
{
    if s.len() > 0 && is_space_char(s.last()) {
        trim_end_spec(s.drop_last())
    } else {
        s
    }
}

/// Whether a trimmed physical line continues on the next one.
pub open spec fn ends_backslash(s: Seq<char>) -> bool {
    s.len() > 0 && s.last() == '\\'
}

/// The logical records formed from the trimmed lines `ls[i..]`, with `cur`
/// holding a partially assembled record from earlier continuation lines.
/// Joined lines are separated by a literal newline; a pending record at the
/// end of input is emitted.
pub open spec fn join_from(ls: Seq<Seq<char>>, i: int, cur: Option<Seq<char>>) -> Seq<Seq<char>>
    recommends
        0 <= i <= ls.len(),
    decreases ls.len() - i,
{
    if i < 0 || i >= ls.len() {
        match cur {
            Option::None => Seq::empty(),
            Option::Some(c) => seq![c],
        }
    } else {
        let merged = match cur {
            Option::None => ls[i],
            Option::Some(c) => c + seq!['\n'] + ls[i],
        };
        if ends_backslash(ls[i]) {
            join_from(ls, i + 1, Option::Some(merged))
        } else {
            seq![merged] + join_from(ls, i + 1, Option::None)
        }
    }
}

/// The logical records of a whole byte stream: lines split, unmasked,
/// decoded, trimmed of trailing whitespace, and joined at continuations.
pub open spec fn spec_records(b: Seq<u8>) -> Seq<Seq<char>> {
    join_from(decoded_lines(b).map_values(|l: Seq<char>| trim_end_spec(l)), 0, Option::None)
}

/// The spec-level view of an optional pending record.
pub open spec fn opt_seq(o: Option<String>) -> Option<Seq<char>> {
    match o {
        Option::None => Option::None,
        Option::Some(s) => Option::Some(s@),
    }
}

/// Relies on `String::from_utf8`: returns the string decoding of the bytes
/// exactly when they are valid UTF-8 (its documentation: "Returns `Err` if
/// the slice is not UTF-8").
#[verifier::external_body]
fn utf8_to_string(bytes: &Vec<u8>) -> (r: Option<String>)
    ensures
        r is Some <==> valid_utf8(bytes@),
        r matches Some(s) ==> encode_utf8(s@) == bytes@,
{
    match String::from_utf8(bytes.clone()) {
        Ok(s) => Some(s),
        Err(_) => None,
    }
}

/// Undoes the metafication of one physical line.
fn unmetafy_line(line: &Vec<u8>) -> (r: Vec<u8>)
    ensures
        r@ == unmetafy(line@),
{
    let mut out: Vec<u8> = Vec::new();
    let mut src: usize = 0;
    let n = line.len();
    proof {
        assert(line@.skip(0) =~= line@);
        assert(out@ + unmetafy(line@.skip(0)) =~= unmetafy(line@));
    }
    while src < n
        invariant
            n == line@.len(),
            src <= n,
            unmetafy(line@) == out@ + unmetafy(line@.skip(src as int)),
        decreases n - src,
    {
        proof {
            assert(line@.skip(src as int)[0] == line@[src as int]);
        }
        if line[src] == 0x83 && src + 1 < n {
            proof {
                assert(line@.skip(src as int)[1] == line@[src as int + 1]);
                assert(line@.skip(src as int).skip(2) =~= line@.skip(src as int + 2));
                assert(unmetafy(line@.skip(src as int)) == seq![(line@[src as int + 1] ^ 0x20)]
                    + unmetafy(line@.skip(src as int + 2)));
            }
            out.push(line[src + 1] ^ 0x20);
            src = src + 2;
        } else {
            proof {
                assert(unmetafy(line@.skip(src as int)) == seq![line@[src as int]] + unmetafy(
                    line@.skip(src as int + 1),
                )) by {
                    assert(line@.skip(src as int).skip(1) =~= line@.skip(src as int + 1));
                }
            }
            out.push(line[src]);
            src = src + 1;
        }
        proof {
            assert(unmetafy(line@) =~= out@ + unmetafy(line@.skip(src as int)));
        }
    }
    proof {
        assert(line@.skip(n as int).len() == 0);
        assert(unmetafy(line@) =~= out@);
    }
    out
}

/// Every position before the first newline holds no newline byte.
proof fn lemma_first_newline_from(b: Seq<u8>, i: int, e: int)
    requires
        0 <= i <= e <= b.len(),
        forall|k: int| i <= k < e ==> b[k] != 0x0A,
        e < b.len() ==> b[e] == 0x0A,
    ensures
        first_newline_from(b, i) == e,
    decreases e - i,
{
    if i < e {
        lemma_first_newline_from(b, i + 1, e);
    }
}

/// Splits a byte stream into its physical lines.
fn split_into_lines(bytes: &Vec<u8>) -> (r: Vec<Vec<u8>>)
    ensures
        r@.map_values(|l: Vec<u8>| l@) == split_lines(bytes@),
{
    let mut out: Vec<Vec<u8>> = Vec::new();
    let mut cur: Vec<u8> = Vec::new();
    let mut start: usize = 0;
    let mut i: usize = 0;
    let n = bytes.len();
    proof {
        assert(cur@ =~= bytes@.subrange(0, 0));
        assert(bytes@.skip(0) =~= bytes@);
        assert(out@.map_values(|l: Vec<u8>| l@) + split_lines(bytes@.skip(0)) =~= split_lines(
            bytes@,
        ));
    }
    while i < n
        invariant
            n == bytes@.len(),
            start <= i <= n,
            cur@ == bytes@.subrange(start as int, i as int),
            forall|k: int| start <= k < i ==> bytes@[k] != 0x0A,
            split_lines(bytes@) == out@.map_values(|l: Vec<u8>| l@) + split_lines(
                bytes@.skip(start as int),
            ),
        decreases n - i,
    {
        let b = bytes[i];
        if b == 0x0A {
            proof {
                let rest = bytes@.skip(start as int);
                assert(forall|k: int| 0 <= k < i - start ==> rest[k] == bytes@[k + start]);
                lemma_first_newline_from(rest, 0, i - start);
                assert(rest.take(i - start) =~= bytes@.subrange(start as int, i as int));
                assert(rest.skip(i - start + 1) =~= bytes@.skip(i as int + 1));
                assert(split_lines(rest) == seq![cur@] + split_lines(bytes@.skip(i as int + 1)));
            }
            out.push(cur);
            cur = Vec::new();
            start = i + 1;
            proof {
                assert(out@.map_values(|l: Vec<u8>| l@) =~= out@.drop_last().map_values(
                    |l: Vec<u8>| l@,
                ).push(out@.last()@));
                assert(cur@ =~= bytes@.subrange(start as int, start as int));
                assert(split_lines(bytes@) =~= out@.map_values(|l: Vec<u8>| l@) + split_lines(
                    bytes@.skip(start as int),
                ));
            }
        } else {
            cur.push(b);
            proof {
                assert(cur@ =~= bytes@.subrange(start as int, i as int + 1));
            }
        }
        i = i + 1;
    }
    if cur.len() > 0 {
        proof {
            let rest = bytes@.skip(start as int);
            assert(forall|k: int| 0 <= k < n - start ==> rest[k] == bytes@[k + start]);
            lemma_first_newline_from(rest, 0, n - start);
            assert(rest =~= bytes@.subrange(start as int, n as int));
            assert(split_lines(rest) == seq![rest]);
        }
        out.push(cur);
        proof {
            assert(out@.map_values(|l: Vec<u8>| l@) =~= out@.drop_last().map_values(
                |l: Vec<u8>| l@,
            ).push(out@.last()@));
            assert(split_lines(bytes@) =~= out@.map_values(|l: Vec<u8>| l@));
        }
    } else {
        proof {
            assert(bytes@.skip(start as int).len() == 0);
            assert(split_lines(bytes@.skip(start as int)) == Seq::<Seq<u8>>::empty());
            assert(split_lines(bytes@) =~= out@.map_values(|l: Vec<u8>| l@));
        }
    }
    out
}

/// Decodes the physical lines of a raw history file: splits at newlines,
/// undoes the metafication of each line, and validates the result as text.
/// On the first line that is not valid text, fails with its 1-based line
/// number.
pub fn decode_physical_lines(bytes: &Vec<u8>) -> (r: Result<Vec<String>, HistoryError>)
    ensures
        all_lines_valid(bytes@) ==> (r matches Ok(ls) && ls@.map_values(|l: String| l@)
            == decoded_lines(bytes@)),
        !all_lines_valid(bytes@) ==> (r matches Err(HistoryError::LineEncodingError(no, msg))
            && no@ == spec_u64_string((first_bad_line(split_lines(bytes@), 0) + 1) as nat) && msg@
            == "stream did not contain valid UTF-8"@),
{
    let raw_lines = split_into_lines(bytes);
    let ghost sl = split_lines(bytes@);
    let nb = bytes.len();
    let with_final_newline = nb > 0 && bytes[nb - 1] == 0x0A;
    proof {
        assert(with_final_newline == ends_newline(bytes@));
    }
    let mut out: Vec<String> = Vec::new();
    let mut i: usize = 0;
    while i < raw_lines.len()
        invariant
            raw_lines@.map_values(|l: Vec<u8>| l@) == sl,
            sl == split_lines(bytes@),
            with_final_newline == ends_newline(bytes@),
            i <= raw_lines@.len(),
            out@.len() == i,
            forall|k: int| 0 <= k < i ==> valid_utf8(unmetafy(sl[k])),
            forall|k: int|
                0 <= k < i ==> (#[trigger] out@[k])@ == decoded_lines(bytes@)[k],
        decreases raw_lines@.len() - i,
    {
        let um = unmetafy_line(&raw_lines[i]);
        proof {
            assert(raw_lines@[i as int]@ == sl[i as int]);
            assert(raw_lines@.len() == sl.len());
        }
        match utf8_to_string(&um) {
            Some(s) => {
                proof {
                    encode_utf8_decode_utf8(s@);
                    assert(s@ == decode_utf8(unmetafy(sl[i as int])));
                }
                let terminated = i + 1 < raw_lines.len() || with_final_newline;
                proof {
                    assert(terminated == line_terminated(bytes@, i as int));
                }
                let line = if terminated {
                    strip_trailing_cr(s)
                } else {
                    s
                };
                proof {
                    assert(line@ == decoded_lines(bytes@)[i as int]);
                }
                out.push(line);
            },
            None => {
                proof {
                    lemma_first_bad_from(sl, 0, i as int);
                    assert(first_bad_line(sl, 0) == i as int);
                    assert(!all_lines_valid(bytes@));
                }
                let line_no = u64_to_string((i as u64) + 1);
                let msg = "stream did not contain valid UTF-8".to_owned();
                return Err(HistoryError::LineEncodingError(line_no, msg));
            },
        }
        i = i + 1;
    }
    proof {
        assert(all_lines_valid(bytes@));
        assert(out@.map_values(|l: String| l@) =~= decoded_lines(bytes@));
    }
    Ok(out)
}

/// A prefix of valid lines places the first bad line at the first failure.
proof fn lemma_first_bad_from(ls: Seq<Seq<u8>>, i: int, e: int)
    requires
        0 <= i <= e <= ls.len(),
        forall|k: int| i <= k < e ==> valid_utf8(unmetafy(#[trigger] ls[k])),
        e < ls.len() ==> !valid_utf8(unmetafy(ls[e])),
    ensures
        first_bad_line(ls, i) == e,
    decreases e - i,
{
    if i < e {
        lemma_first_bad_from(ls, i + 1, e);
    }
}

/// Removes the trailing whitespace of a line.
pub fn trim_end_line(s: &str) -> (r: String)
    ensures
        r@ == trim_end_spec(s@),
{
    let v = crate::text::chars_of(s);
    let mut e = v.len();
    proof {
        assert(s@.take(v@.len() as int) =~= s@);
    }
    while e > 0 && is_space(v[e - 1])
        invariant
            v@ == s@,
            e <= v@.len(),
            trim_end_spec(s@) == trim_end_spec(s@.take(e as int)),
        decreases e,
    {
        proof {
            assert(s@.take(e as int).last() == s@[e - 1]);
            assert(s@.take(e as int).drop_last() =~= s@.take(e as int - 1));
        }
        e = e - 1;
    }
    proof {
        if e > 0 {
            assert(s@.take(e as int).last() == s@[e - 1]);
        }
        assert(trim_end_spec(s@.take(e as int)) == s@.take(e as int));
    }
    let r = s.substring_char(0, e).to_owned();
    proof {
        assert(r@ =~= s@.take(e as int));
    }
    r
}

/// Joins trimmed physical lines into logical records: a line ending in a
/// backslash continues on the next line, with a literal newline at the join
/// point; a pending record at end of input is emitted.
pub fn join_lines(lines: &Vec<String>) -> (r: Vec<String>)
    ensures
        r@.map_values(|x: String| x@) == join_from(
            lines@.map_values(|l: String| l@),
            0,
            Option::None,
        ),
{
    let ghost ls = lines@.map_values(|l: String| l@);
    let mut out: Vec<String> = Vec::new();
    let mut cur: Option<String> = None;
    let mut i: usize = 0;
    while i < lines.len()
        invariant
            ls == lines@.map_values(|l: String| l@),
            i <= lines@.len(),
            join_from(ls, 0, Option::None) == out@.map_values(|x: String| x@) + join_from(
                ls,
                i as int,
                opt_seq(cur),
            ),
        decreases lines@.len() - i,
    {
        let l = &lines[i];
        let llen = l.as_str().unicode_len();
        let continues = llen > 0 && l.as_str().get_char(llen - 1) == '\\';
        proof {
            assert(ls[i as int] == lines@[i as int]@);
            assert(continues == ends_backslash(ls[i as int]));
        }
        let merged = match cur {
            None => l.clone(),
            Some(mut c) => {
                c.append("\n");
                c.append(l.as_str());
                proof {
                    reveal_strlit("\n");
                    assert("\n"@ =~= seq!['\n']);
                }
                c
            },
        };
        if continues {
            cur = Some(merged);
        } else {
            out.push(merged);
            cur = None;
            proof {
                assert(out@.map_values(|x: String| x@) =~= out@.drop_last().map_values(
                    |x: String| x@,
                ).push(out@.last()@));
            }
        }
        i = i + 1;
    }
    if let Some(c) = cur {
        out.push(c);
        proof {
            assert(out@.map_values(|x: String| x@) =~= out@.drop_last().map_values(
                |x: String| x@,
            ).push(out@.last()@));
        }
    }
    proof {
        assert(join_from(ls, ls.len() as int, Option::None) == Seq::<Seq<char>>::empty());
        assert(out@.map_values(|x: String| x@) =~= join_from(ls, 0, Option::None));
    }
    out
}

/// Decodes a whole raw history file into its logical records.
pub fn decode_records(bytes: &Vec<u8>) -> (r: Result<Vec<String>, HistoryError>)
    ensures
        all_lines_valid(bytes@) ==> (r matches Ok(rs) && rs@.map_values(|x: String| x@)
            == spec_records(bytes@)),
        !all_lines_valid(bytes@) ==> (r matches Err(HistoryError::LineEncodingError(no, msg))
            && no@ == spec_u64_string((first_bad_line(split_lines(bytes@), 0) + 1) as nat) && msg@
            == "stream did not contain valid UTF-8"@),
{
    let decoded = match decode_physical_lines(bytes) {
        Ok(ls) => ls,
        Err(e) => {
            return Err(e);
        },
    };
    let mut trimmed: Vec<String> = Vec::new();
    let mut i: usize = 0;
    while i < decoded.len()
        invariant
            all_lines_valid(bytes@),
            decoded@.map_values(|l: String| l@) == decoded_lines(bytes@),
            i <= decoded@.len(),
            trimmed@.len() == i,
            forall|k: int|
                0 <= k < i ==> (#[trigger] trimmed@[k])@ == trim_end_spec(decoded_lines(bytes@)[k]),
        decreases decoded@.len() - i,
    {
        let t = trim_end_line(decoded[i].as_str());
        proof {
            assert(decoded@[i as int]@ == decoded_lines(bytes@)[i as int]);
        }
        trimmed.push(t);
        i = i + 1;
    }
    proof {
        assert(trimmed@.map_values(|l: String| l@) =~= decoded_lines(bytes@).map_values(
            |l: Seq<char>| trim_end_spec(l),
        ));
    }
    Ok(join_lines(&trimmed))
}

/// The decoded physical lines of a history file, handed out one at a time
/// in file order.  Each line's newline terminator, and a carriage return
/// directly before it, is removed; a final line without a terminator is
/// handed out whole.
pub struct ZshLines {
    /// The decoded lines, in file order.
    pub lines: Vec<String>,
    /// How many lines have been handed out already.
    pub pos: usize,
}

impl ZshLines {
    /// Decodes the raw bytes of a history file into a line stream.  Fails
    /// with the 1-based line number of the first line that is not valid
    /// text after unmasking.
    pub fn new(bytes: &Vec<u8>) -> (r: Result<ZshLines, HistoryError>)
        ensures
            all_lines_valid(bytes@) ==> (r matches Ok(z) && z.lines@.map_values(|l: String| l@)
                == decoded_lines(bytes@) && z.pos == 0),
            !all_lines_valid(bytes@) ==> (r matches Err(HistoryError::LineEncodingError(no, msg))
                && no@ == spec_u64_string((first_bad_line(split_lines(bytes@), 0) + 1) as nat)
                && msg@ == "stream did not contain valid UTF-8"@),
    {
        match decode_physical_lines(bytes) {
            Ok(lines) => Ok(ZshLines { lines, pos: 0 }),
            Err(e) => Err(e),
        }
    }

    /// The next decoded line, or `None` when all lines have been handed
    /// out.
    pub fn next(&mut self) -> (r: Option<String>)
        ensures
            old(self).pos < old(self).lines@.len() ==> (r matches Some(l) && l@ == old(self).lines@[old(self).pos as int]@ && final(self).pos == old(self).pos + 1 && final(self).lines == old(self).lines),
            old(self).pos >= old(self).lines@.len() ==> (r is None && *final(self) == *old(self)),
    {
        if self.pos < self.lines.len() {
            let l = self.lines[self.pos].clone();
            self.pos = self.pos + 1;
            Some(l)
        } else {
            None
        }
    }
}

} // verus!
