use crate::error::DecodeError;
use crate::stream::ByteStream;
use vstd::prelude::*;
use vstd::utf8::{decode_utf8, encode_utf8, encode_utf8_decode_utf8, valid_utf8};

verus! {

/// The number of bytes of the variable-length integer at the head of `s`: every
/// byte up to and including the first one whose high bit is clear. `None` if
/// `s` ends before such a byte.
pub open spec fn varint_len(s: Seq<u8>) -> Option<nat>
    decreases s.len(),
{
    if s.len() == 0 {
        None
    } else if s[0] < 128 {
        Some(1)
    } else {
        match varint_len(s.skip(1)) {
            None => None,
            Some(n) => Some(n + 1),
        }
    }
}

/// The value of the variable-length integer at the head of `s`: the low seven
/// bits of each of its bytes, the first byte being the least significant group.
pub open spec fn varint_value(s: Seq<u8>) -> nat
    decreases s.len(),
{
    if s.len() == 0 {
        0
    } else if s[0] < 128 {
        (s[0] % 128) as nat
    } else {
        (s[0] % 128) as nat + 128 * varint_value(s.skip(1))
    }
}

/// What reading a variable-length integer from `s` gives: its value and its
/// size in bytes. It is [`DecodeError::Truncated`] if `s` ends inside the
/// integer, and [`DecodeError::Overflow`] if the value does not fit in `usize`.
pub open spec fn varint_of(s: Seq<u8>) -> Result<(nat, nat), DecodeError> {
    match varint_len(s) {
        None => Err(DecodeError::Truncated),
        Some(n) => if varint_value(s) > usize::MAX {
            Err(DecodeError::Overflow)
        } else {
            Ok((varint_value(s), n))
        },
    }
}

/// What reading a length-prefixed string from `s` gives: its characters and
/// its size in bytes, prefix included. The prefix is a variable-length integer
/// that counts the bytes of the UTF-8 text behind it.
pub open spec fn string_of(s: Seq<u8>) -> Result<(Seq<char>, nat), DecodeError> {
    match varint_of(s) {
        Err(e) => Err(e),
        Ok((len, n)) => {
            if s.len() - n < len {
                Err(DecodeError::Truncated)
            } else {
                let text = s.subrange(n as int, (n + len) as int);
                if valid_utf8(text) {
                    Ok((decode_utf8(text), n + len))
                } else {
                    Err(DecodeError::MalformedText)
                }
            }
        },
    }
}

/// `used` bytes in front of a variable-length integer of `rest` bytes.
spec fn lengthened(used: nat, rest: Option<nat>) -> Option<nat> {
    match rest {
        None => None,
        Some(n) => Some(used + n),
    }
}

/// Splitting off the group of one byte: what the groups before it add up to,
/// plus this group at its scale, plus the rest at the next scale.
proof fn lemma_group_split(acc: nat, scale: nat, low: nat, rest: nat)
    ensures
        acc + scale * (low + 128 * rest) == (acc + scale * low) + (scale * 128) * rest,
{
    assert(scale * (low + 128 * rest) == scale * low + (scale * 128) * rest)
        by (nonlinear_arith);
}

/// A group that is not zero weighs at least its scale.
proof fn lemma_group_weight(scale: nat, low: nat)
    requires
        low >= 1,
    ensures
        scale * low >= scale,
{
    assert(scale * low >= scale) by (nonlinear_arith)
        requires
            low >= 1,
    ;
}

/// Reads an unsigned variable-length integer.
///
/// On failure the stream is left where it was.
pub fn read_variable_usize(reader: &mut ByteStream) -> (res: Result<usize, DecodeError>)
    ensures
        match res {
            Ok(v) => varint_of(old(reader)@) matches Ok((value, size)) && v == value
                && final(reader)@ == old(reader)@.skip(size as int),
            Err(e) => varint_of(old(reader)@) == Err::<(nat, nat), DecodeError>(e)
                && final(reader)@ == old(reader)@,
        },
{
    let ghost start = reader@;
    let ghost mut used: nat = 0;
    let ghost mut acc: nat = 0;
    let ghost mut weight: nat = 1;
    let mut cur = *reader;
    let mut value: usize = 0;
    let mut scale: Option<usize> = Some(1);
    let mut overflow = false;
    assert(start.skip(0) =~= start);
    loop
        invariant
            start == old(reader)@,
            reader@ == start,
            used <= start.len(),
            cur@ == start.skip(used as int),
            varint_len(start) == lengthened(used, varint_len(cur@)),
            varint_value(start) == acc + weight * varint_value(cur@),
            weight >= 1,
            overflow <==> acc > usize::MAX,
            !overflow ==> value == acc,
            scale matches Some(x) ==> x == weight,
            scale is None ==> weight > usize::MAX,
        decreases cur@.len(),
    {
        let ghost head = cur@;
        let byte: u8 = match cur.read_u8() {
            Ok(b) => b,
            Err(e) => {
                return Err(e);
            },
        };
        let low: u8 = byte % 128;
        proof {
            let rest = if byte < 128 {
                0nat
            } else {
                varint_value(head.skip(1))
            };
            lemma_group_split(acc, weight, low as nat, rest);
            assert(cur@ =~= start.skip(used as int + 1));
            if low >= 1 {
                lemma_group_weight(weight, low as nat);
            }
        }
        let ghost term: nat = weight * (low as nat);
        assert(low == 0 ==> term == 0) by (nonlinear_arith)
            requires
                term == weight * (low as nat),
        ;
        if !overflow && low != 0 {
            match scale {
                None => {
                    overflow = true;
                },
                Some(x) => {
                    assert(x * (low as usize) == term) by (nonlinear_arith)
                        requires
                            x == weight,
                            term == weight * (low as nat),
                    ;
                    match x.checked_mul(low as usize) {
                        None => {
                            overflow = true;
                        },
                        Some(product) => match value.checked_add(product) {
                            None => {
                                overflow = true;
                            },
                            Some(sum) => {
                                value = sum;
                            },
                        },
                    }
                },
            }
        }
        proof {
            acc = acc + term;
        }
        if byte < 128 {
            if overflow {
                return Err(DecodeError::Overflow);
            }
            *reader = cur;
            return Ok(value);
        }
        scale =
        match scale {
            None => None,
            Some(x) => x.checked_mul(128),
        };
        proof {
            weight = weight * 128;
            used = used + 1;
        }
    }
}

/// Calls `String::from_utf8`. Trusted: the call succeeds exactly on
/// well-formed UTF-8, and the string it gives is then made of the bytes that
/// were handed in.
#[verifier::external_body]
fn string_from_utf8(bytes: Vec<u8>) -> (res: Option<String>)
    ensures
        res is Some <==> valid_utf8(bytes@),
        res matches Some(text) ==> encode_utf8(text@) == bytes@,
{
    String::from_utf8(bytes).ok()
}

/// Reads a length-prefixed UTF-8 string. No buffer is allocated for a length
/// that exceeds the bytes left in the stream.
///
/// On failure the stream is left where it was.
pub fn read_string(reader: &mut ByteStream) -> (res: Result<String, DecodeError>)
    ensures
        match res {
            Ok(text) => string_of(old(reader)@) matches Ok((chars, size)) && text@ == chars
                && final(reader)@ == old(reader)@.skip(size as int),
            Err(e) => string_of(old(reader)@) == Err::<(Seq<char>, nat), DecodeError>(e)
                && final(reader)@ == old(reader)@,
        },
{
    let ghost start = reader@;
    let mut cur = *reader;
    let len: usize = match read_variable_usize(&mut cur) {
        Ok(n) => n,
        Err(e) => {
            return Err(e);
        },
    };
    let ghost prefix = varint_of(start)->Ok_0.1;
    proof {
        lemma_varint_len_in_range(start);
    }
    let bytes: Vec<u8> = match cur.read_bytes(len) {
        Ok(b) => b,
        Err(e) => {
            return Err(e);
        },
    };
    proof {
        assert(bytes@ =~= start.subrange(prefix as int, (prefix + len) as int));
        assert(cur@ =~= start.skip((prefix + len) as int));
    }
    match string_from_utf8(bytes) {
        Some(text) => {
            proof {
                encode_utf8_decode_utf8(text@);
            }
            *reader = cur;
            Ok(text)
        },
        None => Err(DecodeError::MalformedText),
    }
}

/// A variable-length integer does not reach past the end of the bytes that
/// hold it.
pub proof fn lemma_varint_len_in_range(s: Seq<u8>)
    ensures
        varint_len(s) matches Some(n) ==> 1 <= n <= s.len(),
    decreases s.len(),
{
    if s.len() > 0 && s[0] >= 128 {
        lemma_varint_len_in_range(s.skip(1));
    }
}

} // verus!
