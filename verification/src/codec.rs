//! Byte-level codec between binary blobs and their portable text form,
//! used to keep preview images inside the text database.

use vstd::prelude::*;

verus! {

/// The encoding alphabet: the byte standing for a six-bit value.
pub open spec fn sp_b64_char(v: int) -> u8 {
    if v < 26 {
        (65 + v) as u8
    } else if v < 52 {
        (97 + (v - 26)) as u8
    } else if v < 62 {
        (48 + (v - 52)) as u8
    } else if v == 62 {
        43u8
    } else {
        47u8
    }
}

/// The six-bit value a byte stands for, if any.
pub open spec fn sp_b64_val(c: u8) -> Option<int> {
    if 65 <= c <= 90 {
        Option::Some(c - 65)
    } else if 97 <= c <= 122 {
        Option::Some(c - 97 + 26)
    } else if 48 <= c <= 57 {
        Option::Some(c - 48 + 52)
    } else if c == 43 {
        Option::Some(62int)
    } else if c == 47 {
        Option::Some(63int)
    } else {
        Option::None
    }
}

/// The encoded text of a blob: four bytes per three-byte group, the
/// last group padded with `=`.
pub open spec fn sp_b64_encode(data: Seq<u8>) -> Seq<u8>
    decreases data.len(),
{
    if data.len() == 0 {
        Seq::empty()
    } else {
        let b1 = data[0] as int;
        let b2 = if data.len() > 1 {
            data[1] as int
        } else {
            0
        };
        let b3 = if data.len() > 2 {
            data[2] as int
        } else {
            0
        };
        let c1 = sp_b64_char(b1 / 4);
        let c2 = sp_b64_char((b1 % 4) * 16 + b2 / 16);
        let c3 = if data.len() > 1 {
            sp_b64_char((b2 % 16) * 4 + b3 / 64)
        } else {
            61u8
        };
        let c4 = if data.len() > 2 {
            sp_b64_char(b3 % 64)
        } else {
            61u8
        };
        let group = seq![c1, c2, c3, c4];
        if data.len() <= 3 {
            group
        } else {
            group + sp_b64_encode(data.skip(3))
        }
    }
}

/// The text with its trailing padding bytes removed.
pub open spec fn sp_trim_eq(data: Seq<u8>) -> Seq<u8>
    decreases data.len(),
{
    if data.len() > 0 && data.last() == 61 {
        sp_trim_eq(data.drop_last())
    } else {
        data
    }
}

/// The six-bit groups of the trimmed text shifted back into bytes, or
/// the first byte that is no valid encoding character. `buffer` holds
/// `bits` bits (always 0, 2, 4 or 6) still waiting for completion.
pub open spec fn sp_b64_decode_loop(
    data: Seq<u8>,
    buffer: int,
    bits: int,
    out: Seq<u8>,
) -> Result<Seq<u8>, u8>
    decreases data.len(),
{
    if data.len() == 0 {
        Result::Ok(out)
    } else {
        match sp_b64_val(data[0]) {
            Option::None => Result::Err(data[0]),
            Option::Some(v) => {
                let buffer2 = buffer * 64 + v;
                let bits2 = bits + 6;
                if bits2 >= 8 {
                    let bits3 = bits2 - 8;
                    let divisor = if bits3 == 0 {
                        1int
                    } else if bits3 == 2 {
                        4int
                    } else {
                        16int
                    };
                    let byte = ((buffer2 / divisor) % 256) as u8;
                    sp_b64_decode_loop(data.skip(1), buffer2 % divisor, bits3, out.push(byte))
                } else {
                    sp_b64_decode_loop(data.skip(1), buffer2, bits2, out)
                }
            },
        }
    }
}

/// The blob a text decodes to, or the first invalid byte.
pub open spec fn sp_b64_decode(data: Seq<u8>) -> Result<Seq<u8>, u8> {
    sp_b64_decode_loop(sp_trim_eq(data), 0, 0, Seq::empty())
}

/// The encoding alphabet as executable code.
fn b64_char(v: u8) -> (r: u8)
    requires
        v < 64,
    ensures
        r == sp_b64_char(v as int),
{
    if v < 26 {
        65 + v
    } else if v < 52 {
        97 + (v - 26)
    } else if v < 62 {
        48 + (v - 52)
    } else if v == 62 {
        43
    } else {
        47
    }
}

/// Encodes a blob into its portable text form.
#[verifier::loop_isolation(false)]
pub fn base64_encode(data: &Vec<u8>) -> (r: Vec<u8>)
    ensures
        r@ == sp_b64_encode(data@),
{
    let mut out: Vec<u8> = Vec::new();
    let mut i: usize = 0;
    proof {
        assert(data@.skip(0) =~= data@);
        assert(out@ + sp_b64_encode(data@.skip(0)) =~= sp_b64_encode(data@));
    }
    while i < data.len()
        invariant
            0 <= i <= data@.len(),
            sp_b64_encode(data@) == out@ + sp_b64_encode(data@.skip(i as int)),
        decreases data@.len() - i,
    {
        let ghost rest = data@.skip(i as int);
        let ghost prev_out = out@;
        let b1 = data[i];
        let b2 = if data.len() - i > 1 {
            data[i + 1]
        } else {
            0
        };
        let b3 = if data.len() - i > 2 {
            data[i + 2]
        } else {
            0
        };
        proof {
            assert(rest[0] == data@[i as int]);
            if rest.len() > 1 {
                assert(rest[1] == data@[i + 1]);
            }
            if rest.len() > 2 {
                assert(rest[2] == data@[i + 2]);
            }
        }
        out.push(b64_char(b1 / 4));
        out.push(b64_char((b1 % 4) * 16 + b2 / 16));
        if data.len() - i > 1 {
            out.push(b64_char((b2 % 16) * 4 + b3 / 64));
        } else {
            out.push(61);
        }
        if data.len() - i > 2 {
            out.push(b64_char(b3 % 64));
        } else {
            out.push(61);
        }
        proof {
            if rest.len() > 3 {
                assert(rest.skip(3) =~= data@.skip(i + 3));
                assert(out@ =~= prev_out + sp_b64_encode(rest).take(4));
                assert(sp_b64_encode(rest) =~= sp_b64_encode(rest).take(4) + sp_b64_encode(
                    rest.skip(3),
                ));
                assert(out@ + sp_b64_encode(data@.skip(i + 3)) =~= prev_out + sp_b64_encode(
                    rest,
                ));
            } else {
                assert(out@ =~= prev_out + sp_b64_encode(rest));
            }
        }
        if data.len() - i <= 3 {
            i = data.len();
            proof {
                assert(sp_b64_encode(data@.skip(i as int)) =~= Seq::<u8>::empty());
                assert(out@ + Seq::<u8>::empty() =~= out@);
            }
        } else {
            i += 3;
        }
    }
    proof {
        assert(sp_b64_encode(data@.skip(data@.len() as int)) =~= Seq::<u8>::empty());
        assert(out@ + Seq::<u8>::empty() =~= out@);
    }
    out
}

/// Decodes a portable text form back into its blob; the first byte that
/// is no valid encoding character is reported instead.
#[verifier::loop_isolation(false)]
pub fn base64_decode(data: &Vec<u8>) -> (r: Result<Vec<u8>, u8>)
    ensures
        match r {
            Ok(out) => sp_b64_decode(data@) == Result::<Seq<u8>, u8>::Ok(out@),
            Err(c) => sp_b64_decode(data@) == Result::<Seq<u8>, u8>::Err(c),
        },
{
    // Strip the trailing padding.
    let mut end: usize = data.len();
    proof {
        assert(sp_trim_eq(data@) == sp_trim_eq(data@.take(end as int))) by {
            assert(data@.take(end as int) =~= data@);
        }
    }
    while end > 0 && data[end - 1] == 61
        invariant
            0 <= end <= data@.len(),
            sp_trim_eq(data@) == sp_trim_eq(data@.take(end as int)),
        decreases end,
    {
        proof {
            assert(data@.take(end as int).last() == 61);
            assert(data@.take(end as int).drop_last() =~= data@.take(end - 1));
        }
        end -= 1;
    }
    proof {
        if end > 0 {
            assert(data@.take(end as int).last() != 61);
        }
        assert(sp_trim_eq(data@.take(end as int)) == data@.take(end as int));
    }
    let ghost trimmed = data@.take(end as int);
    let mut out: Vec<u8> = Vec::new();
    let mut buffer: u32 = 0;
    let mut bits: u32 = 0;
    proof {
        assert(trimmed.skip(0) =~= trimmed);
    }
    let mut i: usize = 0;
    while i < end
        invariant
            0 <= i <= end <= data@.len(),
            trimmed == data@.take(end as int),
            bits == 0 || bits == 2 || bits == 4 || bits == 6,
            buffer < 64,
            bits == 0 ==> buffer == 0,
            bits == 2 ==> buffer < 4,
            bits == 4 ==> buffer < 16,
            sp_b64_decode(data@) == sp_b64_decode_loop(
                trimmed.skip(i as int),
                buffer as int,
                bits as int,
                out@,
            ),
        decreases end - i,
    {
        let ghost rest = trimmed.skip(i as int);
        proof {
            assert(rest[0] == data@[i as int]);
            assert(rest.skip(1) =~= trimmed.skip(i + 1));
        }
        let c = data[i];
        let v: u32 = if 65 <= c && c <= 90 {
            (c - 65) as u32
        } else if 97 <= c && c <= 122 {
            (c - 97) as u32 + 26
        } else if 48 <= c && c <= 57 {
            (c - 48) as u32 + 52
        } else if c == 43 {
            62
        } else if c == 47 {
            63
        } else {
            return Err(c);
        };
        proof {
            assert(sp_b64_val(c) == Option::Some(v as int));
        }
        buffer = buffer * 64 + v;
        bits = bits + 6;
        if bits >= 8 {
            bits = bits - 8;
            let divisor: u32 = if bits == 0 {
                1
            } else if bits == 2 {
                4
            } else {
                16
            };
            let byte = (buffer / divisor) as u8;
            proof {
                assert(buffer / divisor < 256);
                assert((buffer / divisor) as int % 256 == (buffer / divisor) as int);
            }
            out.push(byte);
            buffer = buffer % divisor;
        }
        i += 1;
    }
    proof {
        assert(trimmed.skip(end as int) =~= Seq::<u8>::empty());
    }
    Ok(out)
}

/// Position of the first comma in `d`, or `d.len()` if none.
pub open spec fn sp_first_comma(d: Seq<u8>) -> int
    decreases d.len(),
{
    if d.len() == 0 {
        0
    } else if d[0] == 44 {
        0
    } else {
        1 + sp_first_comma(d.skip(1))
    }
}

/// The payload of a data reference: the segment between the first comma
/// and the second comma or the end; a reference without a comma is its
/// own payload.
pub open spec fn sp_data_url_payload(d: Seq<u8>) -> Seq<u8> {
    let c1 = sp_first_comma(d);
    if c1 >= d.len() {
        d
    } else {
        let rest = d.skip(c1 + 1);
        let c2 = sp_first_comma(rest);
        rest.take(c2)
    }
}

/// `sp_first_comma` stays within the text and points at a comma when it
/// is not the end.
pub proof fn lemma_first_comma(d: Seq<u8>)
    ensures
        0 <= sp_first_comma(d) <= d.len(),
        sp_first_comma(d) < d.len() ==> d[sp_first_comma(d)] == 44,
        forall|j: int| 0 <= j < sp_first_comma(d) ==> d[j] != 44,
    decreases d.len(),
{
    if d.len() > 0 && d[0] != 44 {
        lemma_first_comma(d.skip(1));
        assert forall|j: int| 0 <= j < sp_first_comma(d) implies d[j] != 44 by {
            if j > 0 {
                assert(d.skip(1)[j - 1] == d[j]);
            }
        }
        if sp_first_comma(d) < d.len() {
            assert(d.skip(1)[sp_first_comma(d) - 1] == d[sp_first_comma(d)]);
        }
    }
}

/// Finds the first comma at or after `pos`.
#[verifier::loop_isolation(false)]
fn find_comma(d: &Vec<u8>, pos: usize) -> (r: usize)
    requires
        pos <= d@.len(),
    ensures
        pos <= r <= d@.len(),
        r - pos == sp_first_comma(d@.skip(pos as int)),
{
    let mut k: usize = pos;
    while k < d.len()
        invariant
            pos <= k <= d@.len(),
            forall|j: int| pos <= j < k ==> d@[j] != 44,
        decreases d@.len() - k,
    {
        if d[k] == 44 {
            proof {
                lemma_comma_skip(d@, pos as int, k as int);
            }
            return k;
        }
        k += 1;
    }
    proof {
        lemma_comma_skip_none(d@, pos as int);
    }
    d.len()
}

/// When byte `k` is the first comma at or after `pos`, the suffix's
/// first comma sits at `k - pos`.
proof fn lemma_comma_skip(d: Seq<u8>, pos: int, k: int)
    requires
        0 <= pos <= k < d.len(),
        d[k] == 44,
        forall|j: int| pos <= j < k ==> d[j] != 44,
    ensures
        sp_first_comma(d.skip(pos)) == k - pos,
    decreases k - pos,
{
    if pos < k {
        assert(d.skip(pos)[0] == d[pos]);
        lemma_comma_skip(d, pos + 1, k);
        assert(d.skip(pos).skip(1) =~= d.skip(pos + 1));
    } else {
        assert(d.skip(pos)[0] == d[pos]);
    }
}

/// When no comma sits at or after `pos`, the suffix has none.
proof fn lemma_comma_skip_none(d: Seq<u8>, pos: int)
    requires
        0 <= pos <= d.len(),
        forall|j: int| pos <= j < d.len() ==> d[j] != 44,
    ensures
        sp_first_comma(d.skip(pos)) == d.len() - pos,
    decreases d.len() - pos,
{
    if pos < d.len() {
        assert(d.skip(pos)[0] == d[pos]);
        lemma_comma_skip_none(d, pos + 1);
        assert(d.skip(pos).skip(1) =~= d.skip(pos + 1));
    }
}

/// Extracts the payload of a data reference, dropping the media-type
/// prefix before its first comma.
#[verifier::loop_isolation(false)]
pub fn strip_data_url_prefix(d: &Vec<u8>) -> (r: Vec<u8>)
    ensures
        r@ == sp_data_url_payload(d@),
{
    let c1 = find_comma(d, 0);
    proof {
        assert(d@.skip(0) =~= d@);
    }
    if c1 == d.len() {
        let mut r: Vec<u8> = Vec::new();
        let mut k: usize = 0;
        while k < d.len()
            invariant
                0 <= k <= d@.len(),
                r@ == d@.take(k as int),
            decreases d@.len() - k,
        {
            r.push(d[k]);
            proof {
                assert(r@ =~= d@.take(k + 1));
            }
            k += 1;
        }
        proof {
            assert(d@.take(d@.len() as int) =~= d@);
        }
        return r;
    }
    let c2 = find_comma(d, c1 + 1);
    let mut r: Vec<u8> = Vec::new();
    let mut k: usize = c1 + 1;
    proof {
        assert(d@.skip(c1 + 1).take(c2 - (c1 + 1)) =~= d@.subrange(c1 + 1, c2 as int));
    }
    while k < c2
        invariant
            c1 + 1 <= k <= c2 <= d@.len(),
            r@ == d@.subrange(c1 + 1, k as int),
        decreases c2 - k,
    {
        r.push(d[k]);
        proof {
            assert(r@ =~= d@.subrange(c1 + 1, k + 1));
        }
        k += 1;
    }
    proof {
        assert(sp_data_url_payload(d@) == d@.skip(c1 + 1).take(c2 - (c1 + 1)));
    }
    r
}

/// The fixed lead-in of an image data reference.
pub open spec fn sp_data_url_head() -> Seq<u8> {
    seq![100u8, 97, 116, 97, 58, 105, 109, 97, 103, 101, 47]
}

/// The fixed separator before the payload of a data reference.
pub open spec fn sp_data_url_sep() -> Seq<u8> {
    seq![59u8, 98, 97, 115, 101, 54, 52, 44]
}

/// Builds an image data reference around an encoded payload.
#[verifier::loop_isolation(false)]
pub fn make_data_url(ext: &Vec<u8>, payload: &Vec<u8>) -> (r: Vec<u8>)
    ensures
        r@ == sp_data_url_head() + ext@ + sp_data_url_sep() + payload@,
{
    let mut r: Vec<u8> = vec![100u8, 97, 116, 97, 58, 105, 109, 97, 103, 101, 47];
    proof {
        assert(r@ =~= sp_data_url_head());
    }
    let ghost base = r@;
    let mut k: usize = 0;
    while k < ext.len()
        invariant
            0 <= k <= ext@.len(),
            r@ == base + ext@.take(k as int),
        decreases ext@.len() - k,
    {
        r.push(ext[k]);
        proof {
            assert(r@ =~= base + ext@.take(k + 1));
        }
        k += 1;
    }
    r.push(59);
    r.push(98);
    r.push(97);
    r.push(115);
    r.push(101);
    r.push(54);
    r.push(52);
    r.push(44);
    let ghost base2 = r@;
    proof {
        assert(ext@.take(ext@.len() as int) =~= ext@);
        assert(base2 =~= sp_data_url_head() + ext@ + sp_data_url_sep());
    }
    let mut k: usize = 0;
    while k < payload.len()
        invariant
            0 <= k <= payload@.len(),
            r@ == base2 + payload@.take(k as int),
        decreases payload@.len() - k,
    {
        r.push(payload[k]);
        proof {
            assert(r@ =~= base2 + payload@.take(k + 1));
        }
        k += 1;
    }
    proof {
        assert(payload@.take(payload@.len() as int) =~= payload@);
        assert(r@ =~= sp_data_url_head() + ext@ + sp_data_url_sep() + payload@);
    }
    r
}


/// The encoding alphabet never produces the padding byte.
proof fn lemma_b64_char_not_padding(v: int)
    requires
        0 <= v < 64,
    ensures
        sp_b64_char(v) != 61,
{
}

/// The alphabet byte of a six-bit value decodes back to that value.
proof fn lemma_b64_char_val(v: int)
    requires
        0 <= v < 64,
    ensures
        sp_b64_val(sp_b64_char(v)) == Option::Some(v),
{
}

/// Stripping padding from a concatenation strips only the second part,
/// as long as something of it survives.
proof fn lemma_trim_concat(a: Seq<u8>, b: Seq<u8>)
    requires
        sp_trim_eq(b).len() > 0,
    ensures
        sp_trim_eq(a + b) == a + sp_trim_eq(b),
    decreases b.len(),
{
    if b.len() > 0 && b.last() == 61 {
        assert((a + b).last() == b.last());
        assert((a + b).drop_last() =~= a + b.drop_last());
        lemma_trim_concat(a, b.drop_last());
    } else {
        assert(b.len() > 0);
        assert((a + b).last() == b.last());
        assert(sp_trim_eq(a + b) == a + b);
    }
}

/// Decoding one full four-byte group prepends its three bytes and
/// leaves the loop back in its clean state.
proof fn lemma_decode_group(b1: u8, b2: u8, b3: u8, rest: Seq<u8>, out: Seq<u8>)
    ensures
        ({
            let c1 = sp_b64_char(b1 as int / 4);
            let c2 = sp_b64_char((b1 as int % 4) * 16 + b2 as int / 16);
            let c3 = sp_b64_char((b2 as int % 16) * 4 + b3 as int / 64);
            let c4 = sp_b64_char(b3 as int % 64);
            sp_b64_decode_loop(seq![c1, c2, c3, c4] + rest, 0, 0, out) == sp_b64_decode_loop(
                rest,
                0,
                0,
                out.push(b1).push(b2).push(b3),
            )
        }),
{
    let v1 = b1 as int / 4;
    let v2 = (b1 as int % 4) * 16 + b2 as int / 16;
    let v3 = (b2 as int % 16) * 4 + b3 as int / 64;
    let v4 = b3 as int % 64;
    let c1 = sp_b64_char(v1);
    let c2 = sp_b64_char(v2);
    let c3 = sp_b64_char(v3);
    let c4 = sp_b64_char(v4);
    lemma_b64_char_val(v1);
    lemma_b64_char_val(v2);
    lemma_b64_char_val(v3);
    lemma_b64_char_val(v4);
    let s1 = seq![c1, c2, c3, c4] + rest;
    let s2 = seq![c2, c3, c4] + rest;
    let s3 = seq![c3, c4] + rest;
    let s4 = seq![c4] + rest;
    assert(s1[0] == c1 && s2[0] == c2 && s3[0] == c3 && s4[0] == c4);
    assert(s1.skip(1) =~= s2);
    assert(s2.skip(1) =~= s3);
    assert(s3.skip(1) =~= s4);
    assert(s4.skip(1) =~= rest);
    // one step: six bits, none emitted
    assert(sp_b64_decode_loop(s1, 0, 0, out) == sp_b64_decode_loop(s2, v1, 6, out));
    // two steps: twelve bits, the first byte comes out
    let byte1 = ((v1 * 64 + v2) / 16) % 256;
    assert(sp_b64_decode_loop(s2, v1, 6, out) == sp_b64_decode_loop(
        s3,
        (v1 * 64 + v2) % 16,
        4,
        out.push(byte1 as u8),
    ));
    assert(byte1 == b1 as int) by (nonlinear_arith)
        requires
            v1 == b1 as int / 4,
            v2 == (b1 as int % 4) * 16 + b2 as int / 16,
            byte1 == ((v1 * 64 + v2) / 16) % 256,
            0 <= b1 < 256,
            0 <= b2 < 256,
    ;
    // three steps: the second byte comes out
    let r2 = (v1 * 64 + v2) % 16;
    let byte2 = ((r2 * 64 + v3) / 4) % 256;
    assert(sp_b64_decode_loop(s3, r2, 4, out.push(b1)) == sp_b64_decode_loop(
        s4,
        (r2 * 64 + v3) % 4,
        2,
        out.push(b1).push(byte2 as u8),
    ));
    assert(byte2 == b2 as int) by (nonlinear_arith)
        requires
            r2 == (v1 * 64 + v2) % 16,
            v1 == b1 as int / 4,
            v2 == (b1 as int % 4) * 16 + b2 as int / 16,
            v3 == (b2 as int % 16) * 4 + b3 as int / 64,
            byte2 == ((r2 * 64 + v3) / 4) % 256,
            0 <= b1 < 256,
            0 <= b2 < 256,
            0 <= b3 < 256,
    ;
    // four steps: the third byte comes out and the state is clean again
    let r3 = (r2 * 64 + v3) % 4;
    let byte3 = ((r3 * 64 + v4) / 1) % 256;
    assert(sp_b64_decode_loop(s4, r3, 2, out.push(b1).push(b2)) == sp_b64_decode_loop(
        rest,
        (r3 * 64 + v4) % 1,
        0,
        out.push(b1).push(b2).push(byte3 as u8),
    ));
    assert(byte3 == b3 as int && (r3 * 64 + v4) % 1 == 0) by (nonlinear_arith)
        requires
            r3 == (((v1 * 64 + v2) % 16) * 64 + v3) % 4,
            r2 == (v1 * 64 + v2) % 16,
            v3 == (b2 as int % 16) * 4 + b3 as int / 64,
            v4 == b3 as int % 64,
            byte3 == ((r3 * 64 + v4) / 1) % 256,
            0 <= b2 < 256,
            0 <= b3 < 256,
    ;
}

/// Decoding the encoded text of a blob yields the blob back, whatever
/// the bytes already decoded.
#[verifier::rlimit(100)]
#[verifier::spinoff_prover]
proof fn lemma_decode_encode(data: Seq<u8>, out: Seq<u8>)
    ensures
        sp_b64_decode_loop(sp_trim_eq(sp_b64_encode(data)), 0, 0, out) == Result::<
            Seq<u8>,
            u8,
        >::Ok(out + data),
    decreases data.len(),
{
    if data.len() == 0 {
        assert(sp_b64_encode(data) =~= Seq::<u8>::empty());
        assert(sp_trim_eq(Seq::<u8>::empty()) =~= Seq::<u8>::empty());
        assert(out + data =~= out);
    } else {
        let b1 = data[0];
        let b2 = if data.len() > 1 {
            data[1]
        } else {
            0
        };
        let b3 = if data.len() > 2 {
            data[2]
        } else {
            0
        };
        let v1 = b1 as int / 4;
        let v2 = (b1 as int % 4) * 16 + b2 as int / 16;
        let v3 = (b2 as int % 16) * 4 + b3 as int / 64;
        let v4 = b3 as int % 64;
        let c1 = sp_b64_char(v1);
        let c2 = sp_b64_char(v2);
        let c3 = sp_b64_char(v3);
        let c4 = sp_b64_char(v4);
        lemma_b64_char_not_padding(v1);
        lemma_b64_char_not_padding(v2);
        lemma_b64_char_not_padding(v3);
        lemma_b64_char_not_padding(v4);
        lemma_b64_char_val(v1);
        lemma_b64_char_val(v2);
        lemma_b64_char_val(v3);
        lemma_b64_char_val(v4);
        if data.len() == 1 {
            assert(sp_b64_encode(data) =~= seq![c1, c2, 61u8, 61u8]);
            assert(seq![c1, c2, 61u8, 61u8].drop_last() =~= seq![c1, c2, 61u8]);
            assert(sp_trim_eq(seq![c1, c2, 61u8, 61u8]) == sp_trim_eq(seq![c1, c2, 61u8]));
            assert(seq![c1, c2, 61u8].drop_last() =~= seq![c1, c2]);
            assert(sp_trim_eq(seq![c1, c2, 61u8]) == sp_trim_eq(seq![c1, c2]));
            assert(seq![c1, c2].last() == c2);
            assert(sp_trim_eq(seq![c1, c2]) == seq![c1, c2]);
            assert(sp_trim_eq(sp_b64_encode(data)) == seq![c1, c2]);
            let s2 = seq![c2];
            assert(seq![c1, c2].skip(1) =~= s2);
            assert(s2.skip(1) =~= Seq::<u8>::empty());
            let byte1 = ((v1 * 64 + v2) / 16) % 256;
            assert(sp_b64_decode_loop(seq![c1, c2], 0, 0, out) == sp_b64_decode_loop(
                s2,
                v1,
                6,
                out,
            ));
            assert(sp_b64_decode_loop(s2, v1, 6, out) == sp_b64_decode_loop(
                Seq::<u8>::empty(),
                (v1 * 64 + v2) % 16,
                4,
                out.push(byte1 as u8),
            ));
            assert(byte1 == b1 as int) by (nonlinear_arith)
                requires
                    v1 == b1 as int / 4,
                    v2 == (b1 as int % 4) * 16 + b2 as int / 16,
                    b2 == 0,
                    byte1 == ((v1 * 64 + v2) / 16) % 256,
                    0 <= b1 < 256,
            ;
            assert(out.push(b1) =~= out + data);
        } else if data.len() == 2 {
            assert(sp_b64_encode(data) =~= seq![c1, c2, c3, 61u8]);
            assert(seq![c1, c2, c3, 61u8].drop_last() =~= seq![c1, c2, c3]);
            assert(sp_trim_eq(seq![c1, c2, c3, 61u8]) == sp_trim_eq(seq![c1, c2, c3]));
            assert(seq![c1, c2, c3].last() == c3);
            assert(sp_trim_eq(seq![c1, c2, c3]) == seq![c1, c2, c3]);
            assert(sp_trim_eq(sp_b64_encode(data)) == seq![c1, c2, c3]);
            let s2 = seq![c2, c3];
            let s3 = seq![c3];
            assert(seq![c1, c2, c3].skip(1) =~= s2);
            assert(s2.skip(1) =~= s3);
            assert(s3.skip(1) =~= Seq::<u8>::empty());
            let byte1 = ((v1 * 64 + v2) / 16) % 256;
            let r2 = (v1 * 64 + v2) % 16;
            let byte2 = ((r2 * 64 + v3) / 4) % 256;
            assert(sp_b64_decode_loop(seq![c1, c2, c3], 0, 0, out) == sp_b64_decode_loop(
                s2,
                v1,
                6,
                out,
            ));
            assert(sp_b64_decode_loop(s2, v1, 6, out) == sp_b64_decode_loop(
                s3,
                r2,
                4,
                out.push(byte1 as u8),
            ));
            assert(byte1 == b1 as int) by (nonlinear_arith)
                requires
                    v1 == b1 as int / 4,
                    v2 == (b1 as int % 4) * 16 + b2 as int / 16,
                    byte1 == ((v1 * 64 + v2) / 16) % 256,
                    0 <= b1 < 256,
                    0 <= b2 < 256,
            ;
            assert(sp_b64_decode_loop(s3, r2, 4, out.push(b1)) == sp_b64_decode_loop(
                Seq::<u8>::empty(),
                (r2 * 64 + v3) % 4,
                2,
                out.push(b1).push(byte2 as u8),
            ));
            assert(byte2 == b2 as int) by (nonlinear_arith)
                requires
                    r2 == (v1 * 64 + v2) % 16,
                    v1 == b1 as int / 4,
                    v2 == (b1 as int % 4) * 16 + b2 as int / 16,
                    v3 == (b2 as int % 16) * 4 + b3 as int / 64,
                    b3 == 0,
                    byte2 == ((r2 * 64 + v3) / 4) % 256,
                    0 <= b1 < 256,
                    0 <= b2 < 256,
            ;
            assert(out.push(b1).push(b2) =~= out + data);
        } else {
            let group = seq![c1, c2, c3, c4];
            let tail = if data.len() <= 3 {
                Seq::<u8>::empty()
            } else {
                sp_b64_encode(data.skip(3))
            };
            assert(sp_b64_encode(data) == group + tail || sp_b64_encode(data) == group);
            if data.len() == 3 {
                assert(sp_b64_encode(data) == group);
                assert(group.last() == c4);
                assert(sp_trim_eq(group) == group);
                lemma_decode_group(b1, b2, b3, Seq::<u8>::empty(), out);
                assert(group + Seq::<u8>::empty() =~= group);
                assert(out.push(b1).push(b2).push(b3) =~= out + data);
            } else {
                let rest = data.skip(3);
                assert(rest.len() > 0);
                assert(sp_trim_eq(tail).len() > 0) by {
                    lemma_decode_encode(rest, out.push(b1).push(b2).push(b3));
                    if sp_trim_eq(tail).len() == 0 {
                        assert(sp_b64_decode_loop(
                            sp_trim_eq(tail),
                            0,
                            0,
                            out.push(b1).push(b2).push(b3),
                        ) == Result::<Seq<u8>, u8>::Ok(out.push(b1).push(b2).push(b3)));
                        assert((out.push(b1).push(b2).push(b3) + rest).len() == out.len() + 3
                            + rest.len());
                    }
                }
                lemma_trim_concat(group, tail);
                lemma_decode_group(b1, b2, b3, sp_trim_eq(tail), out);
                lemma_decode_encode(rest, out.push(b1).push(b2).push(b3));
                assert(out.push(b1).push(b2).push(b3) + rest =~= out + data);
            }
        }
    }
}

/// Decoding the encoded text of any blob yields the blob back.
pub proof fn lemma_codec_round_trip(data: Seq<u8>)
    ensures
        sp_b64_decode(sp_b64_encode(data)) == Result::<Seq<u8>, u8>::Ok(data),
{
    lemma_decode_encode(data, Seq::empty());
    assert(Seq::<u8>::empty() + data =~= data);
}

} // verus!
