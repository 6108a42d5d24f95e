//! When decoding a stream is safe to ask of lopdf.
//!
//! `lopdf::Stream::decompressed_content` panics on some malformed streams:
//! an ASCII85 group whose value does not fit in a `u32` overflows its
//! decoder; predictor parameters whose row size does not fit overflow the
//! size arithmetic or the largest allocation; and a FlateDecode stage sizes
//! its buffer at twice its input (for a later stage, an input that is
//! already in memory, so only the machine limits it).  `decoding_fits` states the streams on
//! which none of this can happen, read from lopdf's source, and
//! `decoding_fits_exec` tests it before the call.
use vstd::prelude::*;
use crate::model::{bytes_equal, integer_object, PdfDict, PdfObject, PdfStream};
use crate::pdf::outside::{integer_value, name_bytes, name_object};

verus! {

// ---------------------------------------------------------------------
// Reading dictionaries as lopdf holds them
// ---------------------------------------------------------------------

/// The value stored last under `key`: what a `lopdf::Dictionary` built
/// from these entries, one `set` after the other, holds under it.
pub open spec fn entries_last(entries: Seq<(Vec<u8>, PdfObject)>, key: Seq<u8>) -> Option<PdfObject>
    decreases entries.len(),
{
    if entries.len() == 0 {
        None
    } else if entries.last().0@ == key {
        Some(entries.last().1)
    } else {
        entries_last(entries.drop_last(), key)
    }
}

/// The integer an object holds (`Object::as_i64`).
pub open spec fn int_value(o: PdfObject) -> Option<i64> {
    match o {
        PdfObject::Scalar(x) => if exists|n: i64| x == integer_object(n) {
            Some(choose|n: i64| x == integer_object(n))
        } else {
            None
        },
        _ => None,
    }
}

/// The object is the name with these bytes.
pub open spec fn is_name(o: PdfObject, b: Seq<u8>) -> bool {
    o == PdfObject::Scalar(name_object(b))
}

/// An integer parameter: its value, or `default` when it is missing or not
/// an integer (`get(key).and_then(as_i64).unwrap_or(default)`).
pub open spec fn param(p: PdfDict, key: Seq<u8>, default: i64) -> i64 {
    match entries_last(p.entries@, key) {
        Some(o) => match int_value(o) {
            Some(n) => n,
            None => default,
        },
        None => default,
    }
}

/// `n`, or `low` when `n` is smaller (`max(low, n)`).
pub open spec fn at_least(n: i64, low: i64) -> i64 {
    if n < low {
        low
    } else {
        n
    }
}

pub open spec fn filter_key_bytes() -> Seq<u8> {
    seq![70u8, 105u8, 108u8, 116u8, 101u8, 114u8]
}

pub open spec fn decode_parms_key() -> Seq<u8> {
    seq![68u8, 101u8, 99u8, 111u8, 100u8, 101u8, 80u8, 97u8, 114u8, 109u8, 115u8]
}

pub open spec fn predictor_key() -> Seq<u8> {
    seq![80u8, 114u8, 101u8, 100u8, 105u8, 99u8, 116u8, 111u8, 114u8]
}

pub open spec fn colors_key() -> Seq<u8> {
    seq![67u8, 111u8, 108u8, 111u8, 114u8, 115u8]
}

pub open spec fn bits_key() -> Seq<u8> {
    seq![66u8, 105u8, 116u8, 115u8, 80u8, 101u8, 114u8, 67u8, 111u8, 109u8, 112u8, 111u8, 110u8, 101u8, 110u8, 116u8]
}

pub open spec fn columns_key() -> Seq<u8> {
    seq![67u8, 111u8, 108u8, 117u8, 109u8, 110u8, 115u8]
}

/// `ASCII85Decode`
pub open spec fn ascii85_name() -> Seq<u8> {
    seq![65u8, 83u8, 67u8, 73u8, 73u8, 56u8, 53u8, 68u8, 101u8, 99u8, 111u8, 100u8, 101u8]
}

// ---------------------------------------------------------------------
// The conditions
// ---------------------------------------------------------------------

/// The PNG predictor's row size fits: when `DecodeParms` is a dictionary
/// naming a predictor from 10 to 15, `Colors` times `BitsPerComponent`
/// (at least 1 and 8) fits a `usize`, and that over 8 times `Columns` (at
/// least 1) is at most `isize::MAX`, the most one allocation may hold.
pub open spec fn predictor_fits(d: PdfDict) -> bool {
    match entries_last(d.entries@, decode_parms_key()) {
        Some(PdfObject::Dictionary(p)) => {
            let pred = param(p, predictor_key(), 1);
            let colors = at_least(param(p, colors_key(), 1), 1) as usize;
            let bits = at_least(param(p, bits_key(), 8), 8) as usize;
            let columns = at_least(param(p, columns_key(), 1), 1) as usize;
            !(10 <= pred <= 15) || (colors * bits <= usize::MAX && (colors * bits) / 8 * columns
                <= isize::MAX)
        },
        _ => true,
    }
}

/// A byte that `is_ascii_whitespace` accepts.
pub open spec fn is_blank(c: u8) -> bool {
    c == 32 || c == 9 || c == 10 || c == 12 || c == 13
}

/// The value a partial ASCII85 group reaches once padded to five digits
/// with `u` (84), as lopdf pads it.
pub open spec fn ascii85_padded(buf: int, count: int) -> int
    decreases 5 - count,
{
    if count >= 5 {
        buf
    } else {
        ascii85_padded(buf * 85 + 84, count + 1)
    }
}

/// The group left at the end fits in a `u32`.
pub open spec fn ascii85_tail_fits(buf: int, count: int) -> bool {
    count == 0 || ascii85_padded(buf, count) <= u32::MAX
}

/// Every group that lopdf's ASCII85 decoder forms from `s`, with `count`
/// digits worth `buf` already read, fits in a `u32`: `z` at a group's
/// start and white space are passed over, the first byte outside `!`..`u`
/// ends the input, and five digits close a group.
pub open spec fn ascii85_fits(s: Seq<u8>, buf: int, count: int) -> bool
    decreases s.len(),
{
    if s.len() == 0 {
        ascii85_tail_fits(buf, count)
    } else {
        let c = s[0];
        if c == 122 && count == 0 {
            ascii85_fits(s.drop_first(), buf, count)
        } else if is_blank(c) {
            ascii85_fits(s.drop_first(), buf, count)
        } else if c < 33 || c > 117 {
            ascii85_tail_fits(buf, count)
        } else {
            let nb = buf * 85 + (c - 33);
            nb <= u32::MAX && if count + 1 == 5 {
                ascii85_fits(s.drop_first(), 0, 0)
            } else {
                ascii85_fits(s.drop_first(), nb, count + 1)
            }
        }
    }
}

/// No `ASCII85Decode` comes after the first filter: such a stage would
/// read bytes that only lopdf computes, and whether their groups fit
/// cannot be told beforehand.
pub open spec fn chain_fits(d: PdfDict) -> bool {
    match entries_last(d.entries@, filter_key_bytes()) {
        Some(PdfObject::Array(items)) => forall|k: int|
            1 <= k < items@.len() ==> !is_name(#[trigger] items@[k], ascii85_name()),
        _ => true,
    }
}

/// The first filter is `ASCII85Decode`.
pub open spec fn first_is_ascii85(d: PdfDict) -> bool {
    match entries_last(d.entries@, filter_key_bytes()) {
        Some(PdfObject::Array(items)) => items@.len() > 0 && is_name(items@[0], ascii85_name()),
        Some(o) => is_name(o, ascii85_name()),
        None => false,
    }
}

/// Decoding the stream with these dictionary and bytes cannot panic: the
/// stored bytes, and what ASCII85 makes of them (at most four bytes each),
/// doubled still fit an allocation; the predictor's row size fits; no
/// ASCII85 stage comes after the first (`chain_fits`); and ASCII85 groups
/// read from the stored bytes fit.
pub open spec fn decoding_fits(d: PdfDict, content: Seq<u8>) -> bool {
    &&& content.len() * 8 <= isize::MAX
    &&& predictor_fits(d)
    &&& chain_fits(d)
    &&& first_is_ascii85(d) ==> ascii85_fits(content, 0, 0)
}

/// White space anywhere in ASCII85 text changes nothing about whether its
/// groups fit: lopdf's decoder passes over it wherever it stands.
pub proof fn law_ascii85_blanks_are_passed_over(s: Seq<u8>, i: int, c: u8, buf: int, count: int)
    requires
        0 <= i <= s.len(),
        is_blank(c),
    ensures
        ascii85_fits(s.insert(i, c), buf, count) == ascii85_fits(s, buf, count),
    decreases i,
{
    let t = s.insert(i, c);
    if i == 0 {
        assert(t[0] == c);
        assert(t.drop_first() =~= s);
    } else {
        let rest = s.drop_first();
        assert(t[0] == s[0]);
        assert(t.drop_first() =~= rest.insert(i - 1, c));
        let c0 = s[0];
        if (c0 == 122 && count == 0) || is_blank(c0) {
            law_ascii85_blanks_are_passed_over(rest, i - 1, c, buf, count);
        } else if c0 < 33 || c0 > 117 {
        } else {
            let nb = buf * 85 + (c0 - 33);
            if count + 1 == 5 {
                law_ascii85_blanks_are_passed_over(rest, i - 1, c, 0, 0);
            } else {
                law_ascii85_blanks_are_passed_over(rest, i - 1, c, nb, count + 1);
            }
        }
    }
}

/// Line breaks and other white space in a stream's bytes never decide
/// whether it is handed to lopdf for decoding: with a blank byte inserted
/// anywhere (and the bytes still far from the largest allocation), the
/// stream is decoded exactly when it was before.
pub proof fn law_blanks_keep_decoding(d: PdfDict, content: Seq<u8>, i: int, c: u8)
    requires
        0 <= i <= content.len(),
        is_blank(c),
        (content.len() + 1) * 8 <= isize::MAX,
    ensures
        decoding_fits(d, content.insert(i, c)) == decoding_fits(d, content),
{
    law_ascii85_blanks_are_passed_over(content, i, c, 0, 0);
    assert(content.insert(i, c).len() == content.len() + 1);
}

// ---------------------------------------------------------------------
// Testing them
// ---------------------------------------------------------------------

/// The value stored last under `key`.
fn last_entry<'a>(d: &'a PdfDict, key: &[u8]) -> (r: Option<&'a PdfObject>)
    ensures
        match r {
            Some(o) => entries_last(d.entries@, key@) == Some(*o),
            None => entries_last(d.entries@, key@) is None,
        },
{
    let mut i: usize = d.entries.len();
    assert(d.entries@.take(i as int) =~= d.entries@);
    while i > 0
        invariant
            i <= d.entries@.len(),
            entries_last(d.entries@, key@) == entries_last(d.entries@.take(i as int), key@),
        decreases i,
    {
        let ghost pre = d.entries@.take(i as int);
        assert(pre.last() == d.entries@[i - 1]);
        if bytes_equal(d.entries[i - 1].0.as_slice(), key) {
            return Some(&d.entries[i - 1].1);
        }
        assert(pre.drop_last() =~= d.entries@.take(i - 1));
        i = i - 1;
    }
    None
}

/// Whether `o` is the name with the bytes `b`.
fn is_name_exec(o: &PdfObject, b: &[u8]) -> (r: bool)
    ensures
        r == is_name(*o, b@),
{
    match o {
        PdfObject::Scalar(x) => match name_bytes(x) {
            Some(v) => bytes_equal(v.as_slice(), b),
            None => false,
        },
        _ => false,
    }
}

/// An integer parameter, as `param` says.
fn int_param(p: &PdfDict, key: &[u8], default: i64) -> (r: i64)
    ensures
        r == param(*p, key@, default),
{
    match last_entry(p, key) {
        Some(o) => match o {
            PdfObject::Scalar(x) => match integer_value(x) {
                Some(n) => {
                    proof {
                        assert(*x == integer_object(n));
                        let m = choose|m: i64| *x == integer_object(m);
                        assert(*x == integer_object(m));
                    }
                    n
                },
                None => default,
            },
            _ => default,
        },
        None => default,
    }
}

fn predictor_fits_exec(d: &PdfDict) -> (r: bool)
    ensures
        r == predictor_fits(*d),
{
    let key = vec![68u8, 101u8, 99u8, 111u8, 100u8, 101u8, 80u8, 97u8, 114u8, 109u8, 115u8];
    assert(key@ =~= decode_parms_key());
    match last_entry(d, key.as_slice()) {
        Some(PdfObject::Dictionary(p)) => {
            let pk = vec![80u8, 114u8, 101u8, 100u8, 105u8, 99u8, 116u8, 111u8, 114u8];
            assert(pk@ =~= predictor_key());
            let pred = int_param(p, pk.as_slice(), 1);
            if pred < 10 || pred > 15 {
                return true;
            }
            let ck = vec![67u8, 111u8, 108u8, 111u8, 114u8, 115u8];
            assert(ck@ =~= colors_key());
            let bk = vec![66u8, 105u8, 116u8, 115u8, 80u8, 101u8, 114u8, 67u8, 111u8, 109u8, 112u8, 111u8, 110u8, 101u8, 110u8, 116u8];
            assert(bk@ =~= bits_key());
            let wk = vec![67u8, 111u8, 108u8, 117u8, 109u8, 110u8, 115u8];
            assert(wk@ =~= columns_key());
            let c0 = int_param(p, ck.as_slice(), 1);
            let b0 = int_param(p, bk.as_slice(), 8);
            let w0 = int_param(p, wk.as_slice(), 1);
            let c1: i64 = if c0 < 1 { 1 } else { c0 };
            let b1: i64 = if b0 < 8 { 8 } else { b0 };
            let w1: i64 = if w0 < 1 { 1 } else { w0 };
            let colors = c1 as usize;
            let bits = b1 as usize;
            let columns = w1 as usize;
            match colors.checked_mul(bits) {
                None => false,
                Some(cb) => match (cb / 8).checked_mul(columns) {
                    None => false,
                    Some(row) => row <= isize::MAX as usize,
                },
            }
        },
        _ => true,
    }
}

/// A padded value is at least what was padded.
proof fn lemma_padded_grows(buf: int, count: int)
    requires
        buf >= 0,
    ensures
        ascii85_padded(buf, count) >= buf,
    decreases 5 - count,
{
    if count < 5 {
        lemma_padded_grows(buf * 85 + 84, count + 1);
    }
}

fn ascii85_tail_fits_exec(buf: u64, count: u64) -> (r: bool)
    requires
        buf <= u32::MAX,
        count < 5,
    ensures
        r == ascii85_tail_fits(buf as int, count as int),
{
    if count == 0 {
        return true;
    }
    let mut b: u64 = buf;
    let mut k: u64 = count;
    while k < 5
        invariant
            b <= u32::MAX,
            0 < count <= k <= 5,
            ascii85_padded(buf as int, count as int) == ascii85_padded(b as int, k as int),
        decreases 5 - k,
    {
        let ghost before = b;
        b = b * 85 + 84;
        assert(ascii85_padded(before as int, k as int) == ascii85_padded(b as int, (k + 1) as int));
        if b > 0xffff_ffffu64 {
            proof {
                lemma_padded_grows(b as int, (k + 1) as int);
            }
            return false;
        }
        k = k + 1;
    }
    true
}

fn ascii85_fits_exec(content: &Vec<u8>) -> (r: bool)
    ensures
        r == ascii85_fits(content@, 0, 0),
{
    let mut buf: u64 = 0;
    let mut count: u64 = 0;
    let mut i: usize = 0;
    assert(content@.skip(0) =~= content@);
    while i < content.len()
        invariant
            i <= content@.len(),
            buf <= u32::MAX,
            count < 5,
            ascii85_fits(content@, 0, 0) == ascii85_fits(content@.skip(i as int), buf as int, count as int),
        decreases content@.len() - i,
    {
        let c = content[i];
        let ghost rest = content@.skip(i as int);
        assert(rest[0] == c);
        assert(rest.drop_first() =~= content@.skip(i + 1));
        if c == 122u8 && count == 0 {
        } else if c == 32u8 || c == 9u8 || c == 10u8 || c == 12u8 || c == 13u8 {
        } else if c < 33u8 || c > 117u8 {
            return ascii85_tail_fits_exec(buf, count);
        } else {
            let nb: u64 = buf * 85 + (c - 33u8) as u64;
            if nb > 0xffff_ffffu64 {
                return false;
            }
            if count + 1 == 5 {
                buf = 0;
                count = 0;
            } else {
                buf = nb;
                count = count + 1;
            }
        }
        i = i + 1;
    }
    assert(content@.skip(i as int).len() == 0);
    ascii85_tail_fits_exec(buf, count)
}

fn chain_fits_exec(d: &PdfDict) -> (r: bool)
    ensures
        r == chain_fits(*d),
{
    let fk = vec![70u8, 105u8, 108u8, 116u8, 101u8, 114u8];
    assert(fk@ =~= filter_key_bytes());
    let a85 = vec![65u8, 83u8, 67u8, 73u8, 73u8, 56u8, 53u8, 68u8, 101u8, 99u8, 111u8, 100u8, 101u8];
    assert(a85@ =~= ascii85_name());
    match last_entry(d, fk.as_slice()) {
        Some(PdfObject::Array(items)) => {
            let mut k: usize = 1;
            while k < items.len()
                invariant
                    1 <= k,
                    a85@ == ascii85_name(),
                    entries_last(d.entries@, filter_key_bytes()) == Some(PdfObject::Array(*items)),
                    forall|j: int| 1 <= j < k && j < items@.len() ==> !is_name(#[trigger] items@[j], ascii85_name()),
                decreases items@.len() - k,
            {
                if is_name_exec(&items[k], a85.as_slice()) {
                    proof {
                        let kk: int = k as int;
                        assert(is_name(items@[kk], ascii85_name()));
                        match entries_last(d.entries@, filter_key_bytes()) {
                            Some(PdfObject::Array(its)) => {
                                assert(its@ == items@);
                                assert(is_name(its@[kk], ascii85_name()));
                            },
                            _ => {},
                        }
                    }
                    return false;
                }
                k = k + 1;
            }
            true
        },
        _ => true,
    }
}

fn first_is_ascii85_exec(d: &PdfDict) -> (r: bool)
    ensures
        r == first_is_ascii85(*d),
{
    let fk = vec![70u8, 105u8, 108u8, 116u8, 101u8, 114u8];
    assert(fk@ =~= filter_key_bytes());
    let a85 = vec![65u8, 83u8, 67u8, 73u8, 73u8, 56u8, 53u8, 68u8, 101u8, 99u8, 111u8, 100u8, 101u8];
    assert(a85@ =~= ascii85_name());
    match last_entry(d, fk.as_slice()) {
        Some(PdfObject::Array(items)) => items.len() > 0 && is_name_exec(&items[0], a85.as_slice()),
        Some(o) => is_name_exec(o, a85.as_slice()),
        None => false,
    }
}

/// Whether decoding `s` cannot panic, as `decoding_fits` says.
pub fn decoding_fits_exec(s: &PdfStream) -> (r: bool)
    ensures
        r == decoding_fits(s.dict, s.content@),
{
    if s.content.len() > (isize::MAX as usize) / 8 {
        return false;
    }
    if !predictor_fits_exec(&s.dict) || !chain_fits_exec(&s.dict) {
        return false;
    }
    if first_is_ascii85_exec(&s.dict) {
        ascii85_fits_exec(&s.content)
    } else {
        true
    }
}

} // verus!
