//! The in-memory image: dimensions, optional iteration count, scale, and
//! the flat pixel buffer, three binary32 bit patterns per pixel.

use vstd::prelude::*;
use crate::errors::{FormatKind, HostByteOrder, ImageError};
use crate::header::{
    dot_pos, exp_pos, is_float_mag, is_mag_char, is_mantissa, is_ws, iter_of_line,
    lemma_line_end_at, lemma_mag_chars, lemma_parse_header_found, lemma_skip_ws_at,
    lemma_token_end_at, line_end, magic_end, parse_dims, parse_header, parse_header_exec, scan_meta,
    tok_usize, HeaderInfo, HeaderParse, MetaExec,
};
use crate::bytes::{
    decode_words, encode_words, lemma_payload_len, lemma_payload_round_trip, payload_bytes,
    words_at,
};
use crate::fbits::{
    add_bits, div_bits, f32_add, f32_div, f32_mul, f32_of_uint, f32_sub, lum_bits, luminance,
    mul_bits, sub_bits, uint_bits,
};
use crate::num::{
    all_digits, dec_digits, is_digit, lemma_dec_digits_are_digits, lemma_dec_val_of_digits,
    push_decimal,
};

verus! {

/// A portable float map image.
///
/// The pixel buffer is flat, row major, RGB interleaved; each channel is
/// the bit pattern of its binary32 value.  An empty buffer is the
/// canonical representation of a fresh image.
#[derive(Debug, PartialEq)]
pub struct Image {
    /// Width in pixels.
    pub width: usize,
    /// Height in pixels.
    pub height: usize,
    /// How many sample passes the pixel values average, when stated.
    pub iters: Option<usize>,
    /// Whether the payload this image was read from, or is nominally
    /// destined for, is little endian.
    pub little: bool,
    /// The scale magnitude, carried through unchanged as its decimal
    /// spelling.
    pub scale_mag: Vec<u8>,
    /// The pixel buffer.
    pub data: Vec<u32>,
}

impl Image {
    /// The structural invariant: a populated buffer holds exactly
    /// `width * height * 3` channels, and the scale magnitude is a
    /// decimal float spelling.
    pub open spec fn wf(self) -> bool {
        (self.data@.len() == 0 || self.data@.len() == self.width as int * self.height as int
            * 3) && self.width as int * self.height as int * 3 <= usize::MAX
            && is_float_mag(self.scale_mag@)
    }

    /// The weight an image contributes when accumulated: its iteration
    /// count, with zero or unspecified counts standing for a single
    /// unweighted sample.
    pub open spec fn weight_spec(self) -> nat {
        match self.iters {
            Some(n) => if n >= 1 {
                n as nat
            } else {
                1
            },
            None => 1,
        }
    }

    /// Generate an empty image.
    pub fn new() -> (r: Image)
        ensures
            r.wf(),
            r.width == 0,
            r.height == 0,
            r.iters is None,
            r.little,
            r.scale_mag@ == seq![49u8, 46u8, 48u8],
            r.data@ == Seq::<u32>::empty(),
    {
        let mut mag: Vec<u8> = Vec::new();
        mag.push(49);
        mag.push(46);
        mag.push(48);
        proof {
            assert(mag@ =~= seq![49u8, 46u8, 48u8]);
            lemma_one_point_zero_is_float_mag();
            assert(is_float_mag(mag@));
        }
        let r = Image {
            width: 0,
            height: 0,
            iters: None,
            little: true,
            scale_mag: mag,
            data: Vec::new(),
        };
        assert(r.width == 0 && r.height == 0);
        assert(r.width as int * r.height as int * 3 == 0);
        r
    }

    /// Test if the image is empty.
    pub fn is_empty(&self) -> (r: bool)
        ensures
            r == (self.data@.len() == 0),
    {
        self.data.len() == 0
    }

    /// The number of pixels of the image.
    pub fn size(&self) -> (r: usize)
        requires
            self.wf(),
        ensures
            r == self.width as int * self.height as int,
    {
        self.width * self.height
    }

    /// Whether the payload this image came from was little endian.
    pub fn is_le(&self) -> (r: bool)
        ensures
            r == self.little,
    {
        self.little
    }

    /// Whether the payload this image came from was big endian.
    pub fn is_be(&self) -> (r: bool)
        ensures
            r == !self.little,
    {
        !self.little
    }

    /// The iteration count, when the decoded header stated one.
    pub fn iteration_count(&self) -> (r: Option<usize>)
        ensures
            r == self.iters,
    {
        self.iters
    }

    /// The pixel buffer: binary32 bit patterns, three per pixel.
    pub fn pixels(&self) -> (r: &Vec<u32>)
        ensures
            r@ == self.data@,
    {
        &self.data
    }

    /// The decimal spelling of the scale magnitude.
    pub fn scale_magnitude(&self) -> (r: &Vec<u8>)
        ensures
            r@ == self.scale_mag@,
    {
        &self.scale_mag
    }

    /// Decode an image from the bytes of a file: the textual header,
    /// then the full binary payload in the byte order that the sign of
    /// the scale announces.
    ///
    /// Fails with a format error exactly when the header is malformed,
    /// and with a truncation error exactly when fewer payload bytes
    /// remain than the dimensions demand; trailing bytes are ignored.
    pub fn decode(bytes: &Vec<u8>) -> (r: Result<Image, ImageError>)
        ensures
            match parse_header(bytes@) {
                HeaderParse::BadMagic => r == Err::<Image, ImageError>(
                    ImageError::FormatError(FormatKind::BadMagic),
                ),
                HeaderParse::MissingMetadata => r == Err::<Image, ImageError>(
                    ImageError::FormatError(FormatKind::MissingMetadata),
                ),
                HeaderParse::Found(h) => {
                    let need = h.width as int * h.height as int * 3;
                    if bytes@.len() - h.body < 4 * need {
                        r == Err::<Image, ImageError>(ImageError::TruncatedPayload)
                    } else {
                        r matches Ok(img) && img.width == h.width && img.height == h.height
                            && img.iters == h.iters && img.little == h.little && img.scale_mag@
                            == h.mag && img.data@ == words_at(bytes@, h.body, need as nat, h.little)
                    }
                },
            },
            r matches Ok(img) ==> img.wf() && img.data@.len() == img.width as int
                * img.height as int * 3,
    {
        let m = parse_header_exec(bytes);
        proof {
            lemma_parse_header_found(bytes@);
        }
        match m {
            MetaExec::BadMagic => Err(ImageError::FormatError(FormatKind::BadMagic)),
            MetaExec::MissingMetadata => Err(ImageError::FormatError(FormatKind::MissingMetadata)),
            MetaExec::Found { width, height, iters, little, mag, body } => {
                let n = bytes.len();
                match width.checked_mul(height) {
                    None => Err(ImageError::TruncatedPayload),
                    Some(wh) => match wh.checked_mul(3) {
                        None => Err(ImageError::TruncatedPayload),
                        Some(nw) => match nw.checked_mul(4) {
                            None => Err(ImageError::TruncatedPayload),
                            Some(nb) => {
                                if n - body < nb {
                                    Err(ImageError::TruncatedPayload)
                                } else {
                                    let data = decode_words(bytes, body, nw, little);
                                    Ok(
                                        Image {
                                            width,
                                            height,
                                            iters,
                                            little,
                                            scale_mag: mag,
                                            data,
                                        },
                                    )
                                }
                            },
                        },
                    },
                }
            },
        }
    }
}

/// The magic line `PF`.
pub open spec fn magic_line() -> Seq<u8> {
    seq![80u8, 70u8, 10u8]
}

/// The iteration annotation line `#> n`.
pub open spec fn iter_line(n: usize) -> Seq<u8> {
    seq![35u8, 62u8, 32u8] + dec_digits(n as nat) + seq![10u8]
}

/// The dimension line `width height scale`, the scale negative exactly
/// when the payload that follows is little endian.
pub open spec fn dims_line(w: usize, h: usize, little: bool, mag: Seq<u8>) -> Seq<u8> {
    dec_digits(w as nat) + seq![32u8] + dec_digits(h as nat) + seq![32u8] + (if little {
        seq![45u8]
    } else {
        Seq::<u8>::empty()
    }) + mag + seq![10u8]
}

/// The bytes an image is saved as: the header, then the payload in the
/// given byte order.
pub open spec fn spec_encode(img: Image, order: HostByteOrder) -> Seq<u8> {
    magic_line() + (match img.iters {
        Some(n) => iter_line(n),
        None => Seq::<u8>::empty(),
    }) + dims_line(img.width, img.height, order is Little, img.scale_mag@) + payload_bytes(
        img.data@,
        order is Little,
    )
}

/// Append a copy of `src` to `out`.
fn push_bytes(out: &mut Vec<u8>, src: &Vec<u8>)
    ensures
        final(out)@ == old(out)@ + src@,
{
    let n = src.len();
    let mut k: usize = 0;
    while k < n
        invariant
            k <= n,
            n == src@.len(),
            out@ == old(out)@ + src@.take(k as int),
        decreases n - k,
    {
        out.push(src[k]);
        proof {
            assert(out@ =~= old(out)@ + src@.take(k + 1));
        }
        k = k + 1;
    }
    proof {
        assert(src@.take(n as int) =~= src@);
    }
}

impl Image {
    /// Encode the image as the bytes of a file, writing the payload —
    /// and the sign of the scale that announces it — in the given byte
    /// order.  Callers that want the platform's own order detect it and
    /// pass it in.
    pub fn encode(&self, order: HostByteOrder) -> (out: Vec<u8>)
        ensures
            out@ == spec_encode(*self, order),
    {
        let little = match order {
            HostByteOrder::Little => true,
            HostByteOrder::Big => false,
        };
        let mut out: Vec<u8> = Vec::new();
        out.push(80);
        out.push(70);
        out.push(10);
        proof {
            assert(out@ =~= magic_line());
        }
        let ghost after_magic = out@;
        match self.iters {
            Some(n) => {
                out.push(35);
                out.push(62);
                out.push(32);
                push_decimal(&mut out, n);
                out.push(10);
                proof {
                    assert(out@ =~= after_magic + iter_line(n));
                }
            },
            None => {},
        }
        let ghost after_iters = out@;
        push_decimal(&mut out, self.width);
        out.push(32);
        push_decimal(&mut out, self.height);
        out.push(32);
        if little {
            out.push(45);
        }
        push_bytes(&mut out, &self.scale_mag);
        out.push(10);
        proof {
            assert(out@ =~= after_iters + dims_line(self.width, self.height, little,
                self.scale_mag@));
        }
        encode_words(&mut out, &self.data, little);
        proof {
            assert(out@ =~= spec_encode(*self, order));
        }
        out
    }
}

/// A file whose first line is not the magic token parses to a bad-magic
/// format error, whatever else it holds: nothing of it is ever decoded.
pub proof fn lemma_bad_magic_rejected(bytes: Seq<u8>)
    requires
        bytes.subrange(0, magic_end(bytes)) != seq![80u8, 70u8],
    ensures
        parse_header(bytes) is BadMagic,
{
}

/// A `#> n` line, as the encoder writes it, steps the scan and resets
/// the iteration count to `n`.
proof fn lemma_scan_iter_line(s: Seq<u8>, i: int, n: usize, cur: Option<usize>)
    requires
        0 <= i,
        i + 3 + dec_digits(n as nat).len() < s.len(),
        s[i + 3 + dec_digits(n as nat).len()] == 10,
        s.subrange(i, i + 3 + dec_digits(n as nat).len()) == seq![35u8, 62u8, 32u8] + dec_digits(
            n as nat,
        ),
    ensures
        scan_meta(s, i, cur) == scan_meta(s, i + 4 + dec_digits(n as nat).len(), Some(n)),
{
    let ddn = dec_digits(n as nat);
    let e = i + 3 + ddn.len();
    let t = s.subrange(i, e);
    lemma_dec_digits_are_digits(n as nat);
    assert forall|k: int| i <= k < e implies s[k] != 10 by {
        assert(s[k] == t[k - i]);
        if k - i >= 3 {
            assert(t[k - i] == ddn[k - i - 3]);
            assert(is_digit(ddn[k - i - 3]));
        }
    }
    lemma_line_end_at(s, i, e);
    assert(t[0] == 35 && t[1] == 62 && t[2] == 32);
    lemma_skip_ws_at(t, 0, 0);
    lemma_token_end_at(t, 0, 2);
    assert(t[3] == ddn[0]);
    lemma_skip_ws_at(t, 2, 3);
    assert forall|k: int| 3 <= k < t.len() implies !is_ws(t[k]) by {
        assert(t[k] == ddn[k - 3]);
    }
    lemma_token_end_at(t, 3, t.len() as int);
    assert(t.subrange(3, t.len() as int) =~= ddn);
    lemma_dec_val_of_digits(n as nat);
    assert(tok_usize(ddn) == Some(n));
    assert(iter_of_line(t) == Some(n));
    assert(scan_meta(s, i, cur) == scan_meta(s, e + 1, Some(n)));
}

/// A dimension line, as the encoder writes it, ends the scan with the
/// dimensions, the byte order and the magnitude it spells.
proof fn lemma_scan_dims_line(
    s: Seq<u8>,
    i: int,
    w: usize,
    h: usize,
    little: bool,
    mag: Seq<u8>,
    cur: Option<usize>,
)
    requires
        0 <= i,
        is_float_mag(mag),
        ({
            let content = dec_digits(w as nat) + seq![32u8] + dec_digits(h as nat) + seq![32u8]
                + (if little {
                seq![45u8]
            } else {
                Seq::<u8>::empty()
            }) + mag;
            &&& i + content.len() < s.len()
            &&& s[i + content.len()] == 10
            &&& s.subrange(i, i + content.len()) == content
        }),
    ensures
        ({
            let content = dec_digits(w as nat) + seq![32u8] + dec_digits(h as nat) + seq![32u8]
                + (if little {
                seq![45u8]
            } else {
                Seq::<u8>::empty()
            }) + mag;
            scan_meta(s, i, cur) == HeaderParse::Found(
                HeaderInfo {
                    width: w,
                    height: h,
                    iters: cur,
                    little,
                    mag,
                    body: i + content.len() + 1,
                },
            )
        }),
{
    let ddw = dec_digits(w as nat);
    let ddh = dec_digits(h as nat);
    let sg: Seq<u8> = if little {
        seq![45u8]
    } else {
        Seq::<u8>::empty()
    };
    let content = ddw + seq![32u8] + ddh + seq![32u8] + sg + mag;
    let e = i + content.len();
    let t = s.subrange(i, e);
    assert(t == content);
    lemma_dec_digits_are_digits(w as nat);
    lemma_dec_digits_are_digits(h as nat);
    lemma_mag_chars(mag);
    let lw = ddw.len() as int;
    let lh = ddh.len() as int;
    let j2 = lw + 1 + lh + 1;
    let k2 = t.len() as int;
    let sl = sg.len() as int;
    assert(t.len() == lw + 1 + lh + 1 + sl + mag.len());
    assert(t.subrange(0, lw) =~= ddw);
    assert(t[lw] == 32);
    assert(t.subrange(lw + 1, lw + 1 + lh) =~= ddh);
    assert(t[lw + 1 + lh] == 32);
    let t2 = t.subrange(j2, k2);
    assert(t2 =~= sg + mag);
    assert forall|k: int| 0 <= k < t.len() implies s[i + k] == t[k] by {}
    assert forall|k: int| i <= k < e implies s[k] != 10 by {
        let x = k - i;
        if x < lw {
            assert(t[x] == ddw[x]);
        } else if x == lw {
        } else if x < lw + 1 + lh {
            assert(t[x] == ddh[x - lw - 1]);
        } else if x == lw + 1 + lh {
        } else {
            assert(t[x] == t2[x - j2]);
            if little && x == j2 {
                assert(t2[0] == 45);
            } else {
                assert(t2[x - j2] == mag[x - j2 - sl]);
                assert(is_mag_char(mag[x - j2 - sl]));
            }
        }
    }
    lemma_line_end_at(s, i, e);
    assert(t[0] == ddw[0]);
    assert(is_digit(t[0]));
    lemma_skip_ws_at(t, 0, 0);
    lemma_token_end_at(t, 0, lw);
    assert(t[lw + 1] == ddh[0]);
    lemma_skip_ws_at(t, lw, lw + 1);
    lemma_token_end_at(t, lw + 1, lw + 1 + lh);
    assert(mag.len() > 0);
    if little {
        assert(t[j2] == t2[0] && t2[0] == 45);
    } else {
        assert(t[j2] == t2[0] && t2[0] == mag[0]);
        assert(is_digit(mag[0]) || mag[0] == 46);
    }
    lemma_skip_ws_at(t, lw + 1 + lh, j2);
    assert forall|k: int| j2 <= k < k2 implies !is_ws(t[k]) by {
        assert(t[k] == t2[k - j2]);
        if little && k == j2 {
        } else {
            assert(t2[k - j2] == mag[k - j2 - sl]);
            assert(is_mag_char(mag[k - j2 - sl]));
        }
    }
    lemma_token_end_at(t, j2, k2);
    lemma_dec_val_of_digits(w as nat);
    lemma_dec_val_of_digits(h as nat);
    assert(tok_usize(t.subrange(0, lw)) == Some(w));
    assert(tok_usize(t.subrange(lw + 1, lw + 1 + lh)) == Some(h));
    if little {
        assert(t2.subrange(1, t2.len() as int) =~= mag);
        assert(crate::header::is_float_token(t2));
        assert(crate::header::mag_of(t2) == mag);
        assert(t2.len() > 0 && t2[0] == 45);
    } else {
        assert(t2 =~= mag);
        assert(crate::header::is_float_token(t2));
        assert(crate::header::mag_of(t2) == mag);
        assert(!(t2.len() > 0 && t2[0] == 45));
    }
    assert(parse_dims(t) == Some((w, h, little, mag)));
    assert(scan_meta(s, i, cur) == HeaderParse::Found(
        HeaderInfo { width: w, height: h, iters: cur, little, mag, body: e + 1 },
    ));
}

/// Saving an image and opening what was written gives back its
/// dimensions, iteration count, scale magnitude, and exactly its pixel
/// bits, whatever byte order was chosen for the payload.
pub proof fn lemma_round_trip(img: Image, order: HostByteOrder)
    requires
        img.wf(),
        img.data@.len() == img.width as int * img.height as int * 3,
    ensures
        ({
            let s = spec_encode(img, order);
            let need = img.width as int * img.height as int * 3;
            &&& parse_header(s) matches HeaderParse::Found(h)
            &&& {
                let h = parse_header(s)->Found_0;
                &&& h.width == img.width
                &&& h.height == img.height
                &&& h.iters == img.iters
                &&& h.little == (order is Little)
                &&& h.mag == img.scale_mag@
                &&& !(s.len() - h.body < 4 * need)
                &&& words_at(s, h.body, need as nat, h.little) == img.data@
            }
        }),
{
    let little = order is Little;
    let mag = img.scale_mag@;
    let ddw = dec_digits(img.width as nat);
    let ddh = dec_digits(img.height as nat);
    let ihdr: Seq<u8> = match img.iters {
        Some(n) => iter_line(n),
        None => Seq::<u8>::empty(),
    };
    let sg: Seq<u8> = if little {
        seq![45u8]
    } else {
        Seq::<u8>::empty()
    };
    let content = ddw + seq![32u8] + ddh + seq![32u8] + sg + mag;
    let pl = payload_bytes(img.data@, little);
    let s = spec_encode(img, order);
    lemma_dec_digits_are_digits(img.width as nat);
    lemma_mag_chars(mag);
    lemma_payload_len(img.data@, little);
    let d0 = 3 + ihdr.len() as int;
    let e2 = d0 + content.len() as int;
    let body = e2 + 1;
    assert(s =~= magic_line() + ihdr + (content + seq![10u8]) + pl);
    assert(s.len() == body + pl.len());
    assert(s.subrange(0, 3) =~= magic_line());
    assert(s[0] == 80 && s[1] == 70 && s[2] == 10);
    lemma_line_end_at(s, 0, 2);
    assert(magic_end(s) == 2);
    assert(s.subrange(0, 2) =~= seq![80u8, 70u8]);
    assert(parse_header(s) == scan_meta(s, 3, None));
    match img.iters {
        Some(n) => {
            let ddn = dec_digits(n as nat);
            assert(ihdr == seq![35u8, 62u8, 32u8] + ddn + seq![10u8]);
            assert(s.subrange(3, 6 + ddn.len() as int) =~= seq![35u8, 62u8, 32u8] + ddn);
            assert(s[6 + ddn.len() as int] == 10);
            assert((6 + ddn.len() as int) < s.len());
            lemma_scan_iter_line(s, 3, n, None);
            assert(d0 == 3 + 4 + ddn.len());
            assert(scan_meta(s, 3, None) == scan_meta(s, d0, Some(n)));
        },
        None => {
            assert(d0 == 3);
        },
    }
    assert(scan_meta(s, 3, None) == scan_meta(s, d0, img.iters));
    assert(s.subrange(d0, e2) =~= content);
    assert(s[e2] == 10);
    assert(e2 < s.len());
    lemma_scan_dims_line(s, d0, img.width, img.height, little, mag, img.iters);
    assert(scan_meta(s, d0, img.iters) == HeaderParse::Found(
        HeaderInfo {
            width: img.width,
            height: img.height,
            iters: img.iters,
            little,
            mag,
            body,
        },
    ));
    assert(s.subrange(body, body + 4 * img.data@.len()) =~= pl);
    lemma_payload_round_trip(img.data@, little, s, body);
}

/// An image saved in either byte order decodes to the same pixel bits:
/// the sign written with the scale makes the payload self-describing.
pub proof fn lemma_endianness_self_description(img: Image, o1: HostByteOrder, o2: HostByteOrder)
    requires
        img.wf(),
        img.data@.len() == img.width as int * img.height as int * 3,
    ensures
        ({
            let need = (img.width as int * img.height as int * 3) as nat;
            let s1 = spec_encode(img, o1);
            let s2 = spec_encode(img, o2);
            let h1 = parse_header(s1)->Found_0;
            let h2 = parse_header(s2)->Found_0;
            words_at(s1, h1.body, need, h1.little) == words_at(s2, h2.body, need, h2.little)
        }),
{
    lemma_round_trip(img, o1);
    lemma_round_trip(img, o2);
}

/// One channel of the weighted-mean update: `(a*w1 + b*w2) / (w1 + w2)`,
/// as the chain of binary32 operations the accumulator performs.
pub open spec fn mix_bits(a: u32, b: u32, w1: nat, w2: nat) -> u32 {
    f32_div(
        f32_add(f32_mul(a, f32_of_uint(w1 as u64)), f32_mul(b, f32_of_uint(w2 as u64))),
        f32_of_uint((w1 + w2) as u64),
    )
}

/// Sum of squared luminance differences of the first `n` pixel triples
/// of `c` against `r`, accumulated left to right in binary32.
pub open spec fn mse_sum(c: Seq<u32>, r: Seq<u32>, n: nat) -> u32
    decreases n,
{
    if n == 0 {
        0
    } else {
        let k = (n - 1) as int;
        let yi = lum_bits(c[3 * k], c[3 * k + 1], c[3 * k + 2]);
        let yr = lum_bits(r[3 * k], r[3 * k + 1], r[3 * k + 2]);
        let d = f32_sub(yi, yr);
        f32_add(mse_sum(c, r, (n - 1) as nat), f32_mul(d, d))
    }
}

impl Image {
    /// The weight this image contributes when accumulated.
    pub fn weight(&self) -> (r: usize)
        ensures
            r == self.weight_spec(),
    {
        match self.iters {
            Some(n) => if n >= 1 {
                n
            } else {
                1
            },
            None => 1,
        }
    }

    /// Fold `other` into `self` as a sample-weighted running average.
    ///
    /// An empty target simply adopts `other` — the seed case when
    /// building up an image from a list of files.  Otherwise the
    /// geometries must agree; each channel becomes the weighted mean
    /// `(old * w1 + new * w2) / (w1 + w2)` of per-sample averages, and
    /// the iteration count becomes `w1 + w2`.  On a geometry mismatch
    /// nothing is touched.
    pub fn accumulate(&mut self, other: Image) -> (r: Result<(), ImageError>)
        requires
            old(self).wf(),
            other.wf(),
            old(self).weight_spec() + other.weight_spec() <= usize::MAX,
        ensures
            final(self).wf(),
            old(self).data@.len() == 0 ==> r is Ok && *final(self) == other,
            old(self).data@.len() != 0 && (old(self).width != other.width || old(self).height
                != other.height) ==> r == Err::<(), ImageError>(ImageError::GeometryMismatch)
                && *final(self) == *old(self),
            old(self).data@.len() != 0 && old(self).width == other.width && old(self).height
                == other.height ==> ({
                let w1 = old(self).weight_spec();
                let w2 = other.weight_spec();
                let m = if old(self).data@.len() <= other.data@.len() {
                    old(self).data@.len() as int
                } else {
                    other.data@.len() as int
                };
                r is Ok && final(self).width == old(self).width && final(self).height == old(
                    self,
                ).height && final(self).little == old(self).little && final(self).scale_mag@
                    == old(self).scale_mag@ && final(self).iters == Some(((w1 + w2) as usize))
                    && final(self).data@.len() == old(self).data@.len() && (forall|i: int|
                    0 <= i < m ==> final(self).data@[i] == mix_bits(
                        old(self).data@[i],
                        other.data@[i],
                        w1,
                        w2,
                    )) && (forall|i: int|
                    m <= i < old(self).data@.len() ==> final(self).data@[i] == old(
                        self,
                    ).data@[i])
            }),
    {
        if self.data.len() == 0 {
            *self = other;
            return Ok(());
        }
        if self.width != other.width || self.height != other.height {
            return Err(ImageError::GeometryMismatch);
        }
        let w1 = self.weight();
        let w2 = other.weight();
        let total = w1 + w2;
        let w1f = uint_bits(w1 as u64);
        let w2f = uint_bits(w2 as u64);
        let tf = uint_bits(total as u64);
        let n = if self.data.len() <= other.data.len() {
            self.data.len()
        } else {
            other.data.len()
        };
        let mut i: usize = 0;
        while i < n
            invariant
                i <= n,
                n <= self.data@.len(),
                n <= other.data@.len(),
                w1 == old(self).weight_spec(),
                w2 == other.weight_spec(),
                total == w1 + w2,
                w1f == f32_of_uint(w1 as u64),
                w2f == f32_of_uint(w2 as u64),
                tf == f32_of_uint(total as u64),
                self.width == old(self).width,
                self.height == old(self).height,
                self.iters == old(self).iters,
                self.little == old(self).little,
                self.scale_mag@ == old(self).scale_mag@,
                self.data@.len() == old(self).data@.len(),
                forall|k: int|
                    0 <= k < i ==> self.data@[k] == mix_bits(
                        old(self).data@[k],
                        other.data@[k],
                        w1 as nat,
                        w2 as nat,
                    ),
                forall|k: int| i <= k < self.data@.len() ==> self.data@[k] == old(self).data@[k],
            decreases n - i,
        {
            let a = self.data[i];
            let b = other.data[i];
            let v = div_bits(add_bits(mul_bits(a, w1f), mul_bits(b, w2f)), tf);
            self.data.set(i, v);
            i = i + 1;
        }
        self.iters = Some(total);
        Ok(())
    }

    /// Mean-square luminance error of `self` scored against `reference`,
    /// as the bit pattern of its binary32 value: the sum of squared
    /// per-pixel luminance differences, divided by the pixel count.
    /// The root of the mean square is left to the caller.  Fails exactly
    /// when the geometries differ; neither operand is touched.
    pub fn mse_bits(&self, reference: &Image) -> (r: Result<u32, ImageError>)
        requires
            self.wf(),
            reference.wf(),
        ensures
            (self.width != reference.width || self.height != reference.height) ==> r == Err::<
                u32,
                ImageError,
            >(ImageError::GeometryMismatch),
            (self.width == reference.width && self.height == reference.height) ==> ({
                let m = (if self.data@.len() <= reference.data@.len() {
                    self.data@.len() as int
                } else {
                    reference.data@.len() as int
                }) / 3;
                r == Ok::<u32, ImageError>(
                    f32_div(
                        mse_sum(self.data@, reference.data@, m as nat),
                        f32_of_uint((self.width as int * self.height as int) as u64),
                    ),
                )
            }),
    {
        if self.width != reference.width || self.height != reference.height {
            return Err(ImageError::GeometryMismatch);
        }
        let mlen = if self.data.len() <= reference.data.len() {
            self.data.len()
        } else {
            reference.data.len()
        };
        let n = mlen / 3;
        let mut acc: u32 = 0;
        let mut i: usize = 0;
        while i < n
            invariant
                i <= n,
                3 * n <= mlen,
                mlen <= self.data@.len(),
                mlen <= reference.data@.len(),
                acc == mse_sum(self.data@, reference.data@, i as nat),
            decreases n - i,
        {
            let yi = luminance(self.data[3 * i], self.data[3 * i + 1], self.data[3 * i + 2]);
            let yr = luminance(
                reference.data[3 * i],
                reference.data[3 * i + 1],
                reference.data[3 * i + 2],
            );
            let d = sub_bits(yi, yr);
            acc = add_bits(acc, mul_bits(d, d));
            i = i + 1;
        }
        let size = self.width * self.height;
        Ok(div_bits(acc, uint_bits(size as u64)))
    }
}

impl Default for Image {
    /// The empty image.
    fn default() -> (r: Image)
        ensures
            r.wf(),
            r.width == 0,
            r.height == 0,
            r.iters is None,
            r.data@ == Seq::<u32>::empty(),
    {
        Image::new()
    }
}

/// The spelling `1.0` is a decimal float magnitude.
proof fn lemma_one_point_zero_is_float_mag()
    ensures
        is_float_mag(seq![49u8, 46u8, 48u8]),
{
    let t = seq![49u8, 46u8, 48u8];
    assert(exp_pos(t, 3) == 3);
    assert(exp_pos(t, 2) == 3);
    assert(exp_pos(t, 1) == 3);
    assert(exp_pos(t, 0) == 3);
    assert(dot_pos(t, 1) == 1);
    assert(dot_pos(t, 0) == 1);
    assert(all_digits(t, 0, 1));
    assert(all_digits(t, 2, 3));
    assert(is_mantissa(t));
}

} // verus!
