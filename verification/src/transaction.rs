//! The line protocol parser.
//!
//! A command line has the grammar `transactionId (" " field)*` where each
//! `field` is `strip:led:r:g:b`: exactly five colon-separated decimal
//! integer subfields. The transaction identifier is an opaque token that is
//! echoed back, never interpreted. Fields are applied to a live
//! [`StripSet`] strictly left to right, and mutations from fields that
//! precede a failing field are *not* rolled back: they stay applied even
//! though the line as a whole reports an error.
//!
//! Line acquisition is byte-at-a-time: [`accept_byte`] decides, for one
//! incoming byte, whether it is silently discarded as transport noise,
//! terminates the line, is appended to the line buffer, or overflows the
//! buffer's fixed capacity.

use vstd::prelude::*;

use crate::config::TRANSACTION_MAX;
use crate::error::Error;
use crate::ws2812b::MatrixView;
use crate::ws2812b::Rgb;
use crate::ws2812b::StripSet;

verus! {

/// The ASCII space byte: separates the transaction identifier and fields.
pub const BYTE_SPACE: u8 = 32;

/// The ASCII colon byte: separates the five subfields of a field.
pub const BYTE_COLON: u8 = 58;

/// The ASCII newline byte: terminates a command line.
pub const BYTE_NEWLINE: u8 = 10;

/// The ASCII digit zero.
pub const BYTE_ZERO: u8 = 48;

/// The ASCII digit nine.
pub const BYTE_NINE: u8 = 57;

/// The characters the transport accepts: decimal digits, the colon, the
/// space and the newline. Every other byte is transport noise.
pub open spec fn is_accepted_char(b: u8) -> bool {
    b == BYTE_SPACE || b == BYTE_COLON || b == BYTE_NEWLINE || (BYTE_ZERO <= b && b <= BYTE_NINE)
}

/// What one incoming byte did to the line being collected.
#[derive(Debug, Clone, Copy, PartialEq, Eq, Structural)]
pub enum LineProgress {
    /// The byte was not an accepted character and was silently discarded.
    Ignored,
    /// The byte was appended to the line buffer.
    Accepted,
    /// The byte was a newline: the line is complete.
    Complete,
}

/// Feeds one incoming byte into the line buffer.
///
/// A byte outside the accepted character set is discarded without error; a
/// newline completes the line without being stored; any other accepted byte
/// is appended, unless the buffer already holds [`TRANSACTION_MAX`] bytes,
/// in which case the line is rejected as too large and the buffer is left
/// for the caller to discard.
pub fn accept_byte(linebuf: &mut Vec<u8>, byte: u8) -> (r: Result<LineProgress, Error>)
    ensures
        match r {
            Ok(LineProgress::Ignored) => !is_accepted_char(byte) && *final(linebuf) == *old(
                linebuf,
            ),
            Ok(LineProgress::Complete) => byte == BYTE_NEWLINE && *final(linebuf) == *old(linebuf),
            Ok(LineProgress::Accepted) => is_accepted_char(byte) && byte != BYTE_NEWLINE && old(
                linebuf,
            )@.len() < TRANSACTION_MAX && final(linebuf)@ == old(linebuf)@.push(byte),
            Err(e) => e == Error::CommandTooLarge && is_accepted_char(byte) && byte != BYTE_NEWLINE
                && old(linebuf)@.len() >= TRANSACTION_MAX && *final(linebuf) == *old(linebuf),
        },
{
    // Ignore invalid bytes
    if !(byte == BYTE_SPACE || byte == BYTE_COLON || byte == BYTE_NEWLINE || (BYTE_ZERO <= byte
        && byte <= BYTE_NINE)) {
        return Ok(LineProgress::Ignored);
    }

    // Validate abort conditions
    if byte == BYTE_NEWLINE {
        return Ok(LineProgress::Complete);
    }
    if linebuf.len() >= TRANSACTION_MAX {
        return Err(Error::CommandTooLarge);
    }
    linebuf.push(byte);
    Ok(LineProgress::Accepted)
}

/// Splits a byte sequence at every occurrence of `sep`.
///
/// The result is never empty: a sequence with no separator splits into the
/// one-element sequence of itself, and every separator contributes one more
/// (possibly empty) part.
pub open spec fn split_on(s: Seq<u8>, sep: u8) -> Seq<Seq<u8>>
    decreases s.len(),
{
    if s.len() == 0 {
        seq![Seq::<u8>::empty()]
    } else if s[0] == sep {
        seq![Seq::<u8>::empty()] + split_on(s.skip(1), sep)
    } else {
        let rest = split_on(s.skip(1), sep);
        rest.update(0, seq![s[0]] + rest[0])
    }
}

/// A split always yields at least one part.
proof fn lemma_split_on_len(s: Seq<u8>, sep: u8)
    ensures
        split_on(s, sep).len() >= 1,
    decreases s.len(),
{
    if s.len() == 0 {
    } else {
        lemma_split_on_len(s.skip(1), sep);
    }
}

/// Splits the suffix of `s` that starts at `from` at every `sep`.
fn split_bytes_from(s: &[u8], from: usize, sep: u8) -> (parts: Vec<Vec<u8>>)
    requires
        from <= s@.len(),
    ensures
        parts@.map_values(|p: Vec<u8>| p@) == split_on(s@.skip(from as int), sep),
        parts@.len() >= 1,
    decreases s@.len() - from,
{
    proof {
        lemma_split_on_len(s@.skip(from as int), sep);
    }
    if from == s.len() {
        let mut parts: Vec<Vec<u8>> = Vec::new();
        parts.push(Vec::new());
        proof {
            assert(s@.skip(from as int) =~= Seq::<u8>::empty());
            assert(parts@.map_values(|p: Vec<u8>| p@) =~= split_on(s@.skip(from as int), sep));
        }
        parts
    } else {
        let b = s[from];
        proof {
            assert(s@.skip(from as int)[0] == b);
            assert(s@.skip(from as int).skip(1) =~= s@.skip(from as int + 1));
        }
        let mut rest = split_bytes_from(s, from + 1, sep);
        if b == sep {
            rest.insert(0, Vec::new());
            proof {
                assert(rest@.map_values(|p: Vec<u8>| p@) =~= seq![Seq::<u8>::empty()] + split_on(
                    s@.skip(from as int + 1),
                    sep,
                ));
            }
            rest
        } else {
            let ghost tail_parts = split_on(s@.skip(from as int + 1), sep);
            let first = &mut rest[0];
            first.insert(0, b);
            proof {
                assert(first@ =~= seq![b] + tail_parts[0]);
                assert(rest@.map_values(|p: Vec<u8>| p@) =~= tail_parts.update(
                    0,
                    seq![b] + tail_parts[0],
                ));
            }
            rest
        }
    }
}

/// Splits a whole byte slice at every occurrence of `sep`.
fn split_bytes(s: &[u8], sep: u8) -> (parts: Vec<Vec<u8>>)
    ensures
        parts@.map_values(|p: Vec<u8>| p@) == split_on(s@, sep),
        parts@.len() >= 1,
{
    let parts = split_bytes_from(s, 0, sep);
    proof {
        assert(s@.skip(0) =~= s@);
    }
    parts
}

/// Every byte of `s` is an ASCII decimal digit.
pub open spec fn is_digits(s: Seq<u8>) -> bool {
    forall|i: int| 0 <= i < s.len() ==> BYTE_ZERO <= #[trigger] s[i] && s[i] <= BYTE_NINE
}

/// The decimal value of a digit string, most significant digit first.
pub open spec fn dec_value(s: Seq<u8>) -> int
    decreases s.len(),
{
    if s.len() == 0 {
        0
    } else {
        dec_value(s.drop_last()) * 10 + (s.last() - BYTE_ZERO)
    }
}

/// `s` parses as a non-negative index: non-empty, all digits, and its value
/// fits the machine word.
pub open spec fn dec_index_ok(s: Seq<u8>) -> bool {
    s.len() > 0 && is_digits(s) && dec_value(s) <= usize::MAX
}

/// `s` parses as a color channel value: non-empty, all digits, and its
/// value is in 0..=255.
pub open spec fn dec_channel_ok(s: Seq<u8>) -> bool {
    s.len() > 0 && is_digits(s) && dec_value(s) <= 255
}

/// A digit string's value is non-negative.
proof fn lemma_dec_value_nonneg(s: Seq<u8>)
    requires
        is_digits(s),
    ensures
        dec_value(s) >= 0,
    decreases s.len(),
{
    if s.len() > 0 {
        lemma_dec_value_nonneg(s.drop_last());
    }
}

/// Extending a digit string never lowers its value: every prefix's value is
/// at most the whole string's value.
proof fn lemma_dec_value_prefix_le(s: Seq<u8>, i: int)
    requires
        is_digits(s),
        0 <= i <= s.len(),
    ensures
        dec_value(s.take(i)) <= dec_value(s),
    decreases s.len() - i,
{
    if i == s.len() {
        assert(s.take(i) =~= s);
    } else {
        assert(s.take(i + 1).drop_last() =~= s.take(i));
        assert(is_digits(s.take(i)));
        lemma_dec_value_nonneg(s.take(i));
        lemma_dec_value_prefix_le(s, i + 1);
    }
}

/// Parses a byte slice as a non-negative decimal index.
///
/// Returns the value exactly when the slice is non-empty, all digits, and
/// the value fits in `usize`; returns nothing otherwise.
fn parse_index(s: &[u8]) -> (r: Option<usize>)
    ensures
        match r {
            Some(v) => dec_index_ok(s@) && v == dec_value(s@),
            None => !dec_index_ok(s@),
        },
{
    if s.len() == 0 {
        return None;
    }
    let mut acc: usize = 0;
    let mut i: usize = 0;
    while i < s.len()
        invariant
            i <= s@.len(),
            is_digits(s@.take(i as int)),
            acc == dec_value(s@.take(i as int)),
        decreases s@.len() - i,
    {
        let b = s[i];
        if !(BYTE_ZERO <= b && b <= BYTE_NINE) {
            return None;
        }
        let d = (b - BYTE_ZERO) as usize;
        proof {
            assert(s@.take(i + 1).drop_last() =~= s@.take(i as int));
        }
        if acc > usize::MAX / 10 || (acc == usize::MAX / 10 && d > usize::MAX % 10) {
            proof {
                // The value up to and including this digit already
                // overflows, and appending digits never lowers the value.
                assert(dec_value(s@.take(i + 1)) > usize::MAX);
                if is_digits(s@) {
                    lemma_dec_value_prefix_le(s@, i + 1);
                }
            }
            return None;
        }
        proof {
            assert(acc * 10 + d <= usize::MAX) by (nonlinear_arith)
                requires
                    d <= 9,
                    acc <= usize::MAX / 10,
                    acc < usize::MAX / 10 || d <= usize::MAX % 10,
            ;
        }
        acc = acc * 10 + d;
        i += 1;
    }
    proof {
        assert(s@.take(s@.len() as int) =~= s@);
    }
    Some(acc)
}

/// Parses a byte slice as a color channel value.
///
/// Returns the value exactly when the slice is non-empty, all digits, and
/// the value is in 0..=255; returns nothing otherwise.
fn parse_channel(s: &[u8]) -> (r: Option<u8>)
    ensures
        match r {
            Some(v) => dec_channel_ok(s@) && v == dec_value(s@),
            None => !dec_channel_ok(s@),
        },
{
    match parse_index(s) {
        Some(v) if v <= 255 => Some(v as u8),
        Some(_) => None,
        None => None,
    }
}

/// The meaning of one field `strip:led:r:g:b`: the parsed (strip index,
/// LED index, color) triple, or the error for the first subfield that
/// fails. Exactly five colon-separated subfields are required; the strip
/// and LED subfields must be decimal indices, the three channel subfields
/// decimal values in 0..=255.
pub open spec fn parse_field_spec(f: Seq<u8>) -> Result<(nat, nat, Rgb), Error> {
    let sub = split_on(f, BYTE_COLON);
    if sub.len() < 5 {
        Err(Error::FieldTruncated)
    } else if sub.len() > 5 {
        Err(Error::FieldTooLong)
    } else if !dec_index_ok(sub[0]) {
        Err(Error::StripIndexInvalid)
    } else if !dec_index_ok(sub[1]) {
        Err(Error::LedIndexInvalid)
    } else if !dec_channel_ok(sub[2]) {
        Err(Error::RedInvalid)
    } else if !dec_channel_ok(sub[3]) {
        Err(Error::GreenInvalid)
    } else if !dec_channel_ok(sub[4]) {
        Err(Error::BlueInvalid)
    } else {
        Ok(
            (
                dec_value(sub[0]) as nat,
                dec_value(sub[1]) as nat,
                Rgb {
                    r: dec_value(sub[2]) as u8,
                    g: dec_value(sub[3]) as u8,
                    b: dec_value(sub[4]) as u8,
                },
            ),
        )
    }
}

/// Parses one field, returning `(strip, led, rgb_values)`.
pub fn parse_command(field: &[u8]) -> (r: Result<(usize, usize, Rgb), Error>)
    ensures
        match r {
            Ok(t) => parse_field_spec(field@) == Ok::<(nat, nat, Rgb), Error>(
                (t.0 as nat, t.1 as nat, t.2),
            ),
            Err(e) => parse_field_spec(field@) == Err::<(nat, nat, Rgb), Error>(e),
        },
{
    // Split the field and check the subfield count
    let sub = split_bytes(field, BYTE_COLON);
    if sub.len() < 5 {
        return Err(Error::FieldTruncated);
    }
    if sub.len() > 5 {
        return Err(Error::FieldTooLong);
    }

    // Parse the subfields
    let strip = match parse_index(&sub[0]) {
        Some(v) => v,
        None => {
            return Err(Error::StripIndexInvalid);
        },
    };
    let led = match parse_index(&sub[1]) {
        Some(v) => v,
        None => {
            return Err(Error::LedIndexInvalid);
        },
    };
    let red = match parse_channel(&sub[2]) {
        Some(v) => v,
        None => {
            return Err(Error::RedInvalid);
        },
    };
    let green = match parse_channel(&sub[3]) {
        Some(v) => v,
        None => {
            return Err(Error::GreenInvalid);
        },
    };
    let blue = match parse_channel(&sub[4]) {
        Some(v) => v,
        None => {
            return Err(Error::BlueInvalid);
        },
    };

    let rgb = Rgb::new(red, green, blue);
    Ok((strip, led, rgb))
}

/// The strip set after applying one parsed field: the strip index is
/// checked against the number of strips, the LED index against that
/// strip's capacity, and on success the one matrix is mutated as by
/// [`MatrixView::set_led`].
pub open spec fn apply_field(ss: Seq<MatrixView>, strip: nat, led: nat, c: Rgb) -> Result<
    Seq<MatrixView>,
    Error,
> {
    if strip >= ss.len() {
        Err(Error::StripIndexInvalid)
    } else if led >= ss[strip as int].rgb.len() {
        Err(Error::LedIndexOutOfBounds)
    } else {
        Ok(ss.update(strip as int, ss[strip as int].set_led(led, c)))
    }
}

/// The strip set after applying a line's fields strictly left to right,
/// paired with the error of the first failing field, if any. Fields before
/// a failing field stay applied: there is no rollback.
pub open spec fn run_fields(ss: Seq<MatrixView>, fields: Seq<Seq<u8>>) -> (
    Seq<MatrixView>,
    Option<Error>,
)
    decreases fields.len(),
{
    if fields.len() == 0 {
        (ss, None)
    } else {
        match parse_field_spec(fields[0]) {
            Err(e) => (ss, Some(e)),
            Ok(t) => match apply_field(ss, t.0, t.1, t.2) {
                Err(e) => (ss, Some(e)),
                Ok(ss2) => run_fields(ss2, fields.skip(1)),
            },
        }
    }
}

/// A field is well-formed for a strip set when it parses and its indices
/// are in range: it names a configured strip and an LED within that
/// strip's capacity.
pub open spec fn field_ok(ss: Seq<MatrixView>, f: Seq<u8>) -> bool {
    parse_field_spec(f) matches Ok(t) && t.0 < ss.len() && t.1 < ss[t.0 as int].rgb.len()
}

/// The (strip index, LED index, color) triple of a well-formed field.
pub open spec fn field_op(f: Seq<u8>) -> (nat, nat, Rgb) {
    match parse_field_spec(f) {
        Ok(t) => t,
        Err(_) => (0, 0, Rgb { r: 0, g: 0, b: 0 }),
    }
}

/// The strip set after applying (strip, led, color) mutations one by one,
/// in order, each directly through the matrix mutation operation
/// [`MatrixView::set_led`].
pub open spec fn apply_ops(ss: Seq<MatrixView>, ops: Seq<(nat, nat, Rgb)>) -> Seq<MatrixView>
    decreases ops.len(),
{
    if ops.len() == 0 {
        ss
    } else {
        apply_ops(
            ss.update(ops[0].0 as int, ss[ops[0].0 as int].set_led(ops[0].1, ops[0].2)),
            ops.skip(1),
        )
    }
}

/// For a line whose fields are all well-formed, applying them via the
/// parser yields the same final strip set as applying each field's
/// (strip, led, color) individually, in the same order, directly through
/// the matrix mutation operation — and the parser reports no error.
pub proof fn lemma_parser_matches_direct_application(ss: Seq<MatrixView>, fields: Seq<Seq<u8>>)
    requires
        forall|i: int| 0 <= i < fields.len() ==> field_ok(ss, #[trigger] fields[i]),
    ensures
        run_fields(ss, fields).1 is None,
        run_fields(ss, fields).0 == apply_ops(ss, fields.map_values(|f: Seq<u8>| field_op(f))),
    decreases fields.len(),
{
    if fields.len() > 0 {
        let t = field_op(fields[0]);
        let ss2 = ss.update(t.0 as int, ss[t.0 as int].set_led(t.1, t.2));
        assert(field_ok(ss, fields[0]));
        assert(apply_field(ss, t.0, t.1, t.2) == Ok::<Seq<MatrixView>, Error>(ss2));
        assert forall|i: int| 0 <= i < fields.skip(1).len() implies field_ok(
            ss2,
            #[trigger] fields.skip(1)[i],
        ) by {
            assert(fields.skip(1)[i] == fields[i + 1]);
            assert(field_ok(ss, fields[i + 1]));
        }
        lemma_parser_matches_direct_application(ss2, fields.skip(1));
        assert(fields.skip(1).map_values(|f: Seq<u8>| field_op(f)) =~= fields.map_values(
            |f: Seq<u8>| field_op(f),
        ).skip(1));
    }
}

/// Parses one complete command line and applies its mutations to `state`.
///
/// The line splits at spaces: the first part is the opaque transaction
/// identifier, returned on success; every further part is a field that is
/// parsed and applied in order. On failure the error of the first failing
/// field is returned, and the mutations of the fields before it remain
/// applied — the state is exactly `run_fields` of the line's fields either
/// way.
pub fn parse(linebuf: &[u8], state: &mut StripSet) -> (r: Result<Vec<u8>, Error>)
    ensures
        old(state).wf() ==> final(state).wf(),
        ({
            let fields = split_on(linebuf@, BYTE_SPACE);
            let outcome = run_fields(old(state)@, fields.skip(1));
            final(state)@ == outcome.0 && match r {
                Ok(id) => outcome.1 is None && id@ == fields[0],
                Err(e) => outcome.1 == Some(e),
            }
        }),
{
    let ghost fields = split_on(linebuf@, BYTE_SPACE);

    // Split the line and take the transaction ID
    let mut parts = split_bytes(linebuf, BYTE_SPACE);
    let id = parts.remove(0);
    let ghost mapped = fields.skip(1);
    proof {
        assert(parts@.map_values(|p: Vec<u8>| p@) =~= mapped);
        assert(mapped.skip(0) =~= mapped);
    }

    // Parse the fields and update the appropriate strips
    let mut k: usize = 0;
    while k < parts.len()
        invariant
            k <= parts@.len(),
            old(state).wf() ==> state.wf(),
            mapped == split_on(linebuf@, BYTE_SPACE).skip(1),
            parts@.map_values(|p: Vec<u8>| p@) == mapped,
            run_fields(old(state)@, mapped) == run_fields(state@, mapped.skip(k as int)),
        decreases parts@.len() - k,
    {
        let ghost remaining = mapped.skip(k as int);
        let ghost prev = state@;
        proof {
            assert(remaining.len() == mapped.len() - k);
            assert(remaining[0] == parts@[k as int]@);
            assert(remaining.skip(1) =~= mapped.skip(k as int + 1));
        }
        match parse_command(&parts[k]) {
            Err(e) => {
                proof {
                    assert(run_fields(prev, remaining) == (prev, Some(e)));
                }
                return Err(e);
            },
            Ok((strip, led, rgb)) => {
                proof {
                    assert(parse_field_spec(remaining[0]) == Ok::<(nat, nat, Rgb), Error>(
                        (strip as nat, led as nat, rgb),
                    ));
                }
                match state.set(strip, led, rgb) {
                    Err(e) => {
                        proof {
                            assert(apply_field(prev, strip as nat, led as nat, rgb) == Err::<
                                Seq<MatrixView>,
                                Error,
                            >(e));
                            assert(run_fields(prev, remaining) == (prev, Some(e)));
                            assert(state@ == prev);
                        }
                        return Err(e);
                    },
                    Ok(()) => {
                        proof {
                            assert(apply_field(prev, strip as nat, led as nat, rgb) == Ok::<
                                Seq<MatrixView>,
                                Error,
                            >(state@));
                            assert(run_fields(prev, remaining) == run_fields(
                                state@,
                                remaining.skip(1),
                            ));
                        }
                    },
                }
            },
        }
        k += 1;
    }
    proof {
        assert(mapped.skip(parts@.len() as int) =~= Seq::<Seq<u8>>::empty());
    }
    Ok(id)
}

} // verus!
