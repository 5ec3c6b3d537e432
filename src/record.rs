use vstd::prelude::*;

use crate::bytes::{copy_range, find, find_bytes, lemma_find_bounds};
use crate::error::ExchangeError;
use crate::fields::FieldMap;

verus! {

/// The line terminator, `\n`.
pub open spec fn newline() -> Seq<u8> {
    seq![10u8]
}

/// The key/value separator, `": "`.
pub open spec fn separator() -> Seq<u8> {
    seq![58u8, 32u8]
}

/// Bytes dropped from the end of a packet: NUL and ASCII whitespace.
pub open spec fn is_pad(b: u8) -> bool {
    b == 0 || b == 9 || b == 10 || b == 11 || b == 12 || b == 13 || b == 32
}

/// `s` without its leading NUL bytes.
pub open spec fn trim_nul_start(s: Seq<u8>) -> Seq<u8>
    decreases s.len(),
{
    if s.len() > 0 && s[0] == 0 {
        trim_nul_start(s.drop_first())
    } else {
        s
    }
}

/// `s` without its trailing pad bytes.
pub open spec fn trim_pad_end(s: Seq<u8>) -> Seq<u8>
    decreases s.len(),
{
    if s.len() > 0 && is_pad(s.last()) {
        trim_pad_end(s.drop_last())
    } else {
        s
    }
}

/// The text of a packet that the parser reads.
pub open spec fn packet_body(p: Seq<u8>) -> Seq<u8> {
    trim_pad_end(trim_nul_start(p))
}

/// The lines of `s`, split at each newline; there is always at least one.
pub open spec fn lines(s: Seq<u8>) -> Seq<Seq<u8>>
    decreases s.len(),
{
    let i = find(s, newline());
    if i < 0 || i + 1 > s.len() {
        seq![s]
    } else {
        seq![s.subrange(0, i)] + lines(s.subrange(i + 1, s.len() as int))
    }
}

/// The field that a line holds: the text before the first separator, and the
/// text after it. `None` where the line has no separator.
pub open spec fn field_of(line: Seq<u8>) -> Option<(Seq<u8>, Seq<u8>)> {
    let j = find(line, separator());
    if j < 0 {
        None
    } else {
        Some((line.subrange(0, j), line.subrange(j + 2, line.len() as int)))
    }
}

/// The fields of a sequence of lines, read in order: empty lines are skipped,
/// a later field overwrites an earlier one of the same name, and a non-empty
/// line without a separator is an error.
pub open spec fn parse_lines(ls: Seq<Seq<u8>>) -> Result<Map<Seq<u8>, Seq<u8>>, ExchangeError>
    decreases ls.len(),
{
    if ls.len() == 0 {
        Ok(Map::empty())
    } else {
        match parse_lines(ls.drop_last()) {
            Err(e) => Err(e),
            Ok(m) => {
                let line = ls.last();
                if line.len() == 0 {
                    Ok(m)
                } else {
                    match field_of(line) {
                        None => Err(ExchangeError::MalformedRecord),
                        Some(f) => Ok(m.insert(f.0, f.1)),
                    }
                }
            },
        }
    }
}

/// Once reading lines has failed, further lines do not change the error.
pub proof fn lemma_parse_error_kept(a: Seq<Seq<u8>>, b: Seq<Seq<u8>>)
    requires
        parse_lines(a) is Err,
    ensures
        parse_lines(a + b) == parse_lines(a),
    decreases b.len(),
{
    if b.len() == 0 {
        assert(a + b =~= a);
    } else {
        lemma_parse_error_kept(a, b.drop_last());
        assert((a + b).drop_last() =~= a + b.drop_last());
    }
}

/// Reading lines fails only on a line without a separator.
proof fn lemma_parse_error_is_malformed(ls: Seq<Seq<u8>>)
    ensures
        parse_lines(ls) is Err ==> parse_lines(ls) == Err::<Map<Seq<u8>, Seq<u8>>, ExchangeError>(
            ExchangeError::MalformedRecord,
        ),
    decreases ls.len(),
{
    if ls.len() > 0 {
        lemma_parse_error_is_malformed(ls.drop_last());
    }
}

/// A non-empty line without a separator anywhere in a packet makes the
/// packet a `MalformedRecord`, whatever the other lines hold.
pub proof fn lemma_line_without_separator(p: Seq<u8>, l: int)
    requires
        0 <= l < lines(packet_body(p)).len(),
        lines(packet_body(p))[l].len() > 0,
        field_of(lines(packet_body(p))[l]) is None,
    ensures
        decode_packet(p) == Some(
            Err::<Map<Seq<u8>, Seq<u8>>, ExchangeError>(ExchangeError::MalformedRecord),
        ),
{
    let body = packet_body(p);
    let ls = lines(body);
    if body.len() == 0 {
        assert(find(body, newline()) == -1);
        assert(ls =~= seq![body]);
    }
    assert(ls.take(l + 1).drop_last() =~= ls.take(l));
    assert(ls.take(l + 1).last() == ls[l]);
    assert(ls =~= ls.take(l + 1) + ls.skip(l + 1));
    lemma_parse_error_kept(ls.take(l + 1), ls.skip(l + 1));
    lemma_parse_error_is_malformed(ls);
}

/// Whether `s` is valid UTF-8, as `std::str::from_utf8` decides it.
pub uninterp spec fn is_utf8(s: Seq<u8>) -> bool;

/// Relies on std::str::from_utf8: it succeeds exactly on valid UTF-8, which
/// depends on the bytes alone.
#[verifier::external_body]
fn utf8_valid(b: &[u8]) -> (r: bool)
    ensures
        r == is_utf8(b@),
{
    std::str::from_utf8(b).is_ok()
}

/// What a packet holds: `None` where its body is empty, else its record or
/// the error that parsing it meets.
pub open spec fn decode_packet(p: Seq<u8>) -> Option<Result<Map<Seq<u8>, Seq<u8>>, ExchangeError>> {
    let body = packet_body(p);
    if body.len() == 0 {
        None
    } else {
        match parse_lines(lines(body)) {
            Err(e) => Some(Err(e)),
            Ok(m) => if is_utf8(body) {
                Some(Ok(m))
            } else {
                Some(Err(ExchangeError::InvalidText))
            },
        }
    }
}

/// The body of a packet: leading NUL bytes and trailing pad bytes removed.
pub fn trim_packet(p: &[u8]) -> (r: Vec<u8>)
    ensures
        r@ == packet_body(p@),
{
    let n = p.len();
    let mut a: usize = 0;
    assert(p@.subrange(0, n as int) =~= p@);
    while a < n && p[a] == 0
        invariant
            n == p@.len(),
            a <= n,
            trim_nul_start(p@) == trim_nul_start(p@.subrange(a as int, n as int)),
        decreases n - a,
    {
        assert(p@.subrange(a as int, n as int).drop_first() =~= p@.subrange(a + 1, n as int));
        a = a + 1;
    }
    assert(trim_nul_start(p@) == p@.subrange(a as int, n as int));
    let mut b: usize = n;
    while b > a && is_pad_byte(p[b - 1])
        invariant
            n == p@.len(),
            a <= b <= n,
            packet_body(p@) == trim_pad_end(p@.subrange(a as int, b as int)),
        decreases b - a,
    {
        assert(p@.subrange(a as int, b as int).drop_last() =~= p@.subrange(a as int, b - 1));
        b = b - 1;
    }
    copy_range(p, a, b)
}

fn is_pad_byte(b: u8) -> (r: bool)
    ensures
        r == is_pad(b),
{
    b == 0 || b == 9 || b == 10 || b == 11 || b == 12 || b == 13 || b == 32
}

/// Parses one packet into its record.
pub fn parse_record(packet: &[u8]) -> (r: Option<Result<FieldMap, ExchangeError>>)
    ensures
        match r {
            None => decode_packet(packet@) is None,
            Some(Ok(m)) => m.wf() && decode_packet(packet@) == Some(
                Ok::<Map<Seq<u8>, Seq<u8>>, ExchangeError>(m@),
            ),
            Some(Err(e)) => decode_packet(packet@) == Some(
                Err::<Map<Seq<u8>, Seq<u8>>, ExchangeError>(e),
            ),
        },
{
    let body = trim_packet(packet);
    if body.len() == 0 {
        return None;
    }
    let nl: Vec<u8> = vec![10u8];
    let sep: Vec<u8> = vec![58u8, 32u8];
    let mut fields = FieldMap::new();
    let mut rest = copy_range(body.as_slice(), 0, body.len());
    let ghost mut done: Seq<Seq<u8>> = seq![];
    assert(body@.subrange(0, body@.len() as int) =~= body@);
    loop
        invariant_except_break
            lines(body@) == done + lines(rest@),
        invariant
            body@ == packet_body(packet@),
            body@.len() > 0,
            nl@ == newline(),
            sep@ == separator(),
            fields.wf(),
            parse_lines(done) == Ok::<Map<Seq<u8>, Seq<u8>>, ExchangeError>(fields@),
        ensures
            lines(body@) == done,
        decreases rest@.len(),
    {
        let found = find_bytes(rest.as_slice(), nl.as_slice());
        proof { lemma_find_bounds(rest@, nl@); }
        let line = match found {
            Some(i) => copy_range(rest.as_slice(), 0, i),
            None => copy_range(rest.as_slice(), 0, rest.len()),
        };
        let ghost prev = done;
        let ghost tail: Seq<Seq<u8>> = match found {
            Some(i) => lines(rest@.subrange(i + 1, rest@.len() as int)),
            None => seq![],
        };
        proof {
            if found is None {
                assert(rest@.subrange(0, rest@.len() as int) =~= rest@);
            }
            assert(lines(rest@) =~= seq![line@] + tail);
            done = done.push(line@);
            assert(done.drop_last() =~= prev);
            assert(lines(body@) =~= done + tail);
        }
        if line.len() > 0 {
            proof { lemma_find_bounds(line@, sep@); }
            match find_bytes(line.as_slice(), sep.as_slice()) {
                None => {
                    proof {
                        assert(field_of(line@) is None);
                        assert(parse_lines(done) == Err::<Map<Seq<u8>, Seq<u8>>, ExchangeError>(
                            ExchangeError::MalformedRecord,
                        ));
                        lemma_parse_error_kept(done, tail);
                    }
                    return Some(Err(ExchangeError::MalformedRecord));
                },
                Some(j) => {
                    let key = copy_range(line.as_slice(), 0, j);
                    let value = copy_range(line.as_slice(), j + 2, line.len());
                    fields.insert(key, value);
                },
            }
        }
        match found {
            None => {
                assert(lines(body@) =~= done);
                break;
            },
            Some(i) => {
                let rl = rest.len();
                assert(i + 1 <= rl);
                rest = copy_range(rest.as_slice(), i + 1, rl);
            },
        }
    }
    if utf8_valid(body.as_slice()) {
        Some(Ok(fields))
    } else {
        Some(Err(ExchangeError::InvalidText))
    }
}

} // verus!
