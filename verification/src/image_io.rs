//! Output image formats of the command-line decoder: recognition by file extension, and
//! the bytes of an image as binary PGM/PPM or as PGX.
use vstd::prelude::*;
use crate::error::{Result, invalid};
use crate::image::Image;
use vstd::string::StringSliceAdditionalSpecFns;
use vstd::arithmetic::power2::{lemma2_to64, lemma_pow2_strictly_increases, lemma_pow2_unfold, pow2};

verus! {

/// Supported output image formats.
#[derive(Debug, Clone, Copy, PartialEq, Eq, Structural)]
pub enum ImageFormat {
    /// PGM (grayscale, P5 binary) or PPM (colour, P6 binary).
    Pnm,
    /// PGX (single-component test format).
    Pgx,
}

/// ASCII lower case of byte `b`.
pub open spec fn ascii_lower(b: u8) -> u8 {
    if 0x41 <= b <= 0x5a {
        (b + 32) as u8
    } else {
        b
    }
}

/// The bytes of `p` after its last `/`, or all of them.
pub open spec fn last_seg(p: Seq<u8>) -> Seq<u8>
    decreases p.len(),
{
    if p.len() == 0 || p.last() == 0x2f {
        Seq::empty()
    } else {
        last_seg(p.drop_last()).push(p.last())
    }
}

/// The last segment of a path is no longer than the path.
pub proof fn lemma_last_seg_len(p: Seq<u8>)
    ensures
        last_seg(p).len() <= p.len(),
    decreases p.len(),
{
    if p.len() > 0 && p.last() != 0x2f {
        lemma_last_seg_len(p.drop_last());
    }
}

/// The file name of path `p`: its last component, skipping empty and `.` components;
/// none when that is `..`, or when there is no such component.
pub open spec fn file_name(p: Seq<u8>) -> Option<Seq<u8>>
    decreases p.len(),
{
    let c = last_seg(p);
    if c.len() == 0 || c == seq![0x2eu8] {
        proof {
            lemma_last_seg_len(p);
        }
        if c.len() < p.len() {
            file_name(p.take(p.len() - c.len() - 1))
        } else {
            None
        }
    } else if c == seq![0x2eu8, 0x2eu8] {
        None
    } else {
        Some(c)
    }
}

/// Index of the last `.` of `s`, or -1.
pub open spec fn last_dot(s: Seq<u8>) -> int
    decreases s.len(),
{
    if s.len() == 0 {
        -1
    } else if s.last() == 0x2e {
        s.len() - 1
    } else {
        last_dot(s.drop_last())
    }
}

/// The extension of file name `name`: what follows its last `.`, unless that `.` is its
/// first byte or there is none.
pub open spec fn extension(name: Seq<u8>) -> Option<Seq<u8>> {
    let k = last_dot(name);
    if k <= 0 {
        None
    } else {
        Some(name.skip(k + 1))
    }
}

/// The format that an extension names, in any case: `pgm`, `ppm` and `pnm` for PNM, `pgx`
/// for PGX.
pub open spec fn format_of_extension(e: Seq<u8>) -> Option<ImageFormat> {
    let l = e.map_values(|b: u8| ascii_lower(b));
    if l == seq![0x70u8, 0x67u8, 0x6du8] || l == seq![0x70u8, 0x70u8, 0x6du8] || l == seq![0x70u8, 0x6eu8, 0x6du8] {
        Some(ImageFormat::Pnm)
    } else if l == seq![0x70u8, 0x67u8, 0x78u8] {
        Some(ImageFormat::Pgx)
    } else {
        None
    }
}

/// The output format of path `p`, from the extension of its file name.
pub open spec fn format_of_path(p: Seq<u8>) -> Option<ImageFormat> {
    match file_name(p) {
        None => None,
        Some(name) => match extension(name) {
            None => None,
            Some(e) => format_of_extension(e),
        },
    }
}

/// Scanning back over bytes other than `/` extends the last segment.
proof fn lemma_last_seg_back(p: Seq<u8>, s: int, end: int)
    requires
        0 <= s <= end <= p.len(),
        forall|k: int| s <= k < end ==> p[k] != 0x2f,
    ensures
        last_seg(p.take(end)) == last_seg(p.take(s)) + p.subrange(s, end),
    decreases end - s,
{
    if s < end {
        lemma_last_seg_back(p, s, end - 1);
        assert(p.take(end).drop_last() =~= p.take(end - 1));
        assert(p.subrange(s, end) =~= p.subrange(s, end - 1).push(p[end - 1]));
    } else {
        assert(p.subrange(s, end) =~= Seq::<u8>::empty());
    }
}

/// Start of the last segment of the first `end` bytes of `p`.
fn last_seg_start(p: &[u8], end: usize) -> (s: usize)
    requires
        end <= p@.len(),
    ensures
        s <= end,
        last_seg(p@.take(end as int)) == p@.subrange(s as int, end as int),
{
    let mut s = end;
    while s > 0 && p[s - 1] != 0x2f
        invariant
            s <= end <= p@.len(),
            forall|k: int| s <= k < end ==> p@[k] != 0x2f,
        decreases s,
    {
        s -= 1;
    }
    proof {
        lemma_last_seg_back(p@, s as int, end as int);
        if s > 0 {
            assert(p@.take(s as int).last() == 0x2f);
        }
        assert(last_seg(p@.take(s as int)) =~= Seq::<u8>::empty());
    }
    s
}

/// Scanning back over bytes other than `.` does not move the last dot.
proof fn lemma_last_dot_back(name: Seq<u8>, k: int)
    requires
        0 <= k <= name.len(),
        forall|j: int| k <= j < name.len() ==> name[j] != 0x2e,
    ensures
        last_dot(name) == last_dot(name.take(k)),
    decreases name.len() - k,
{
    if k < name.len() {
        assert(name.drop_last() =~= name.take(name.len() - 1));
        lemma_last_dot_back(name.take(name.len() - 1), k);
        assert(name.take(name.len() - 1).take(k) =~= name.take(k));
    } else {
        assert(name.take(k) =~= name);
    }
}

/// Where the file name of `p` lies in `p`, if it has one.
fn file_name_range(p: &[u8]) -> (r: Option<(usize, usize)>)
    ensures
        match r {
            None => file_name(p@) is None,
            Some((s, e)) => s <= e <= p@.len() && file_name(p@) == Some(p@.subrange(s as int, e as int)),
        },
{
    let mut end = p.len();
    proof {
        assert(p@.take(end as int) =~= p@);
    }
    loop
        invariant
            end <= p@.len(),
            file_name(p@) == file_name(p@.take(end as int)),
        decreases end,
    {
        let s = last_seg_start(p, end);
        let ghost q = p@.take(end as int);
        let len = end - s;
        let is_dot = len == 1 && p[s] == 0x2e;
        if len == 0 || is_dot {
            proof {
                if is_dot {
                    assert(last_seg(q) =~= seq![0x2eu8]);
                }
                lemma_last_seg_len(q);
            }
            if s == 0 {
                return None;
            }
            proof {
                assert(q.take(q.len() - last_seg(q).len() - 1) =~= p@.take(s - 1));
            }
            end = s - 1;
        } else {
            if len == 2 && p[s] == 0x2e && p[s + 1] == 0x2e {
                proof {
                    assert(last_seg(q) =~= seq![0x2eu8, 0x2eu8]);
                }
                return None;
            }
            proof {
                if last_seg(q) == seq![0x2eu8] {
                    assert(last_seg(q)[0] == p@[s as int]);
                }
                if last_seg(q) == seq![0x2eu8, 0x2eu8] {
                    assert(last_seg(q)[0] == p@[s as int]);
                    assert(last_seg(q)[1] == p@[s + 1]);
                }
            }
            return Some((s, end));
        }
    }
}

/// The output format named by the extension of the file name of `path`; see
/// `format_of_path`.
pub fn detect_output_format(path: &str) -> (r: Option<ImageFormat>)
    ensures
        r == format_of_path(path.spec_bytes()),
{
    let p = path.as_bytes();
    let (s, e) = match file_name_range(p) {
        None => {
            return None;
        },
        Some(range) => range,
    };
    let ghost name = p@.subrange(s as int, e as int);
    let mut k = e;
    while k > s && p[k - 1] != 0x2e
        invariant
            s <= k <= e <= p@.len(),
            name == p@.subrange(s as int, e as int),
            forall|j: int| k - s <= j < name.len() ==> name[j] != 0x2e,
        decreases k,
    {
        k -= 1;
    }
    proof {
        lemma_last_dot_back(name, k - s);
        if k > s {
            assert(name.take(k - s).last() == 0x2e);
        } else {
            assert(name.take(0) =~= Seq::<u8>::empty());
        }
    }
    if k == s || k - 1 == s {
        return None;
    }
    let n = e - k;
    let ghost ext = name.skip(k - s);
    proof {
        assert(ext =~= p@.subrange(k as int, e as int));
    }
    if n != 3 {
        proof {
            assert(ext.map_values(|b: u8| ascii_lower(b)).len() != 3);
        }
        return None;
    }
    let a = lower_byte(p[k]);
    let b = lower_byte(p[k + 1]);
    let c = lower_byte(p[k + 2]);
    proof {
        let l = ext.map_values(|b: u8| ascii_lower(b));
        assert(l =~= seq![a, b, c]);
    }
    if a == 0x70 && ((b == 0x67 && c == 0x6d) || (b == 0x70 && c == 0x6d) || (b == 0x6e && c == 0x6d)) {
        Some(ImageFormat::Pnm)
    } else if a == 0x70 && b == 0x67 && c == 0x78 {
        Some(ImageFormat::Pgx)
    } else {
        None
    }
}

/// ASCII lower case of byte `b`.
fn lower_byte(b: u8) -> (r: u8)
    ensures
        r == ascii_lower(b),
{
    if 0x41 <= b && b <= 0x5a {
        b + 32
    } else {
        b
    }
}

/// The decimal digits of `n`, most significant first, in ASCII.
pub open spec fn decimal(n: nat) -> Seq<u8>
    decreases n,
{
    if n < 10 {
        seq![(0x30 + n) as u8]
    } else {
        decimal(n / 10).push((0x30 + n % 10) as u8)
    }
}

/// Appends the decimal digits of `n` to `out`.
fn push_decimal(out: &mut Vec<u8>, n: u32)
    ensures
        final(out)@ == old(out)@ + decimal(n as nat),
    decreases n,
{
    if n >= 10 {
        push_decimal(out, n / 10);
    }
    out.push(0x30 + (n % 10) as u8);
}

/// The largest value of `prec` bits.
pub open spec fn max_value(prec: nat) -> nat
    decreases prec,
{
    if prec == 0 {
        0
    } else {
        2 * max_value((prec - 1) as nat) + 1
    }
}

/// The largest value of `prec` bits is one below the `prec`-th power of 2.
proof fn lemma_max_value(prec: nat)
    ensures
        max_value(prec) + 1 == pow2(prec),
    decreases prec,
{
    if prec == 0 {
        lemma2_to64();
    } else {
        lemma_max_value((prec - 1) as nat);
        lemma_pow2_unfold(prec);
    }
}

/// The largest value of `prec` bits, for `prec` below 32.
fn max_value_of(prec: u32) -> (r: u32)
    requires
        prec < 32,
    ensures
        r == max_value(prec as nat),
{
    let mut m: u32 = 0;
    let mut i: u32 = 0;
    while i < prec
        invariant
            i <= prec < 32,
            m == max_value(i as nat),
        decreases prec - i,
    {
        proof {
            lemma_max_value((i + 1) as nat);
            lemma2_to64();
            if i + 1 < 32 {
                lemma_pow2_strictly_increases((i + 1) as nat, 32);
            }
        }
        m = 2 * m + 1;
        i += 1;
    }
    m
}

/// Sample `i` of component data `data`: 0 past its end.
pub open spec fn comp_value(data: Seq<i32>, i: int) -> i32 {
    if 0 <= i < data.len() {
        data[i]
    } else {
        0
    }
}

/// The data of each component of `image`.
pub open spec fn comps_data(image: &Image) -> Seq<Seq<i32>> {
    Seq::new(image.comps@.len(), |c: int| image.comps@[c].data@)
}

/// A PNM sample: `v` clamped to `0..=maxval`, in two bytes, big-endian and taken modulo
/// 65536, when `wide`, else in one byte.
pub open spec fn pnm_sample(v: i32, maxval: nat, wide: bool) -> Seq<u8> {
    let a: int = if v < 0 { 0 } else { v as int };
    let c: int = if a > maxval { maxval as int } else { a };
    if wide {
        seq![((c % 65536) / 256) as u8, (c % 256) as u8]
    } else {
        seq![(c % 256) as u8]
    }
}

/// The samples of pixel `i` in the first `nc` components.
pub open spec fn pnm_pixel(comps: Seq<Seq<i32>>, nc: nat, i: int, maxval: nat, wide: bool) -> Seq<u8>
    decreases nc,
{
    if nc == 0 {
        Seq::empty()
    } else {
        pnm_pixel(comps, (nc - 1) as nat, i, maxval, wide) + pnm_sample(comp_value(comps[nc - 1], i), maxval, wide)
    }
}

/// The first `n` pixels of a PNM image, in raster order.
pub open spec fn pnm_body(comps: Seq<Seq<i32>>, n: nat, maxval: nat, wide: bool) -> Seq<u8>
    decreases n,
{
    if n == 0 {
        Seq::empty()
    } else {
        pnm_body(comps, (n - 1) as nat, maxval, wide) + pnm_pixel(comps, comps.len(), n - 1, maxval, wide)
    }
}

/// The header of a binary PNM image: `P5` for one component, `P6` for three, then the
/// width, height and largest value, in decimal.
pub open spec fn pnm_header(nc: int, w: nat, h: nat, maxval: nat) -> Seq<u8> {
    seq![0x50u8, if nc == 1 { 0x35u8 } else { 0x36u8 }, 0x0au8] + decimal(w) + seq![0x20u8] + decimal(h)
        + seq![0x0au8] + decimal(maxval) + seq![0x0au8]
}

/// `image` as a binary PGM (one component) or PPM (three components), with the size and
/// precision of its first component; samples in two bytes above 8 bits. Images with
/// another number of components are refused.
#[verifier::spinoff_prover]
pub fn pnm_bytes(image: &Image) -> (r: Result<Vec<u8>>)
    requires
        image.comps@.len() > 0 ==> image.comps@[0].prec < 32,
        image.comps@.len() > 0 ==> image.comps@[0].w * image.comps@[0].h <= usize::MAX,
    ensures
        r is Err <==> image.comps@.len() != 1 && image.comps@.len() != 3,
        r matches Ok(b) ==> b@ == pnm_header(
            image.comps@.len() as int,
            image.comps@[0].w as nat,
            image.comps@[0].h as nat,
            max_value(image.comps@[0].prec as nat),
        ) + pnm_body(
            comps_data(image),
            (image.comps@[0].w * image.comps@[0].h) as nat,
            max_value(image.comps@[0].prec as nat),
            image.comps@[0].prec > 8,
        ),
{
    let nc = image.comps.len();
    if nc == 0 {
        return Err(invalid("no components"));
    }
    if nc != 1 && nc != 3 {
        return Err(invalid("PNM requires 1 or 3 components"));
    }
    let w = image.comps[0].w;
    let h = image.comps[0].h;
    let prec = image.comps[0].prec;
    let maxval = max_value_of(prec);
    let wide = prec > 8;
    let ghost comps = comps_data(image);
    let mut out: Vec<u8> = Vec::new();
    out.push(0x50);
    out.push(if nc == 1 { 0x35 } else { 0x36 });
    out.push(0x0a);
    push_decimal(&mut out, w);
    out.push(0x20);
    push_decimal(&mut out, h);
    out.push(0x0a);
    push_decimal(&mut out, maxval);
    out.push(0x0a);
    let ghost header = out@;
    proof {
        assert(header =~= pnm_header(nc as int, w as nat, h as nat, maxval as nat));
    }
    let npix = (w as usize) * (h as usize);
    let mut i: usize = 0;
    while i < npix
        invariant
            i <= npix,
            npix == w * h,
            nc == image.comps@.len(),
            nc == 1 || nc == 3,
            comps == comps_data(image),
            out@ == header + pnm_body(comps, i as nat, maxval as nat, wide),
        decreases npix - i,
    {
        let ghost before = out@;
        let mut c: usize = 0;
        while c < nc
            invariant
                c <= nc,
                i < npix,
                nc == image.comps@.len(),
                comps == comps_data(image),
                out@ == before + pnm_pixel(comps, c as nat, i as int, maxval as nat, wide),
            decreases nc - c,
        {
            let data = &image.comps[c].data;
            let v: i32 = if i < data.len() { data[i] } else { 0 };
            let a: u32 = if v < 0 { 0 } else { v as u32 };
            let clamped = if a > maxval { maxval } else { a };
            proof {
                assert(comps[c as int] == data@);
                assert(comp_value(comps[c as int], i as int) == v);
            }
            if wide {
                out.push(((clamped % 65536) / 256) as u8);
                out.push((clamped % 256) as u8);
            } else {
                out.push((clamped % 256) as u8);
            }
            c += 1;
            proof {
                assert(out@ =~= before + pnm_pixel(comps, c as nat, i as int, maxval as nat, wide));
            }
        }
        proof {
            assert(comps.len() == nc);
        }
        i += 1;
        proof {
            assert(out@ =~= header + pnm_body(comps, i as nat, maxval as nat, wide));
        }
    }
    Ok(out)
}

/// A PGX sample: `v` as an unsigned 32-bit number, in four bytes above 16 bits of
/// precision, two bytes (modulo 65536) above 8 bits, one byte (modulo 256) otherwise,
/// big-endian.
pub open spec fn pgx_sample(v: i32, prec: nat) -> Seq<u8> {
    let u: int = (v as u32) as int;
    if prec > 16 {
        seq![(u / 0x100_0000) as u8, ((u / 0x1_0000) % 256) as u8, ((u / 256) % 256) as u8, (u % 256) as u8]
    } else if prec > 8 {
        seq![((u % 65536) / 256) as u8, (u % 256) as u8]
    } else {
        seq![(u % 256) as u8]
    }
}

/// The first `n` samples of a PGX image, in raster order.
pub open spec fn pgx_body(data: Seq<i32>, n: nat, prec: nat) -> Seq<u8>
    decreases n,
{
    if n == 0 {
        Seq::empty()
    } else {
        pgx_body(data, (n - 1) as nat, prec) + pgx_sample(comp_value(data, n - 1), prec)
    }
}

/// The header of a PGX image: `PG ML`, the sign (`-` signed, `+` unsigned) and the
/// precision, the width and the height, in decimal.
pub open spec fn pgx_header(sgnd: bool, prec: nat, w: nat, h: nat) -> Seq<u8> {
    seq![0x50u8, 0x47u8, 0x20u8, 0x4du8, 0x4cu8, 0x20u8, if sgnd { 0x2du8 } else { 0x2bu8 }] + decimal(prec)
        + seq![0x20u8] + decimal(w) + seq![0x20u8] + decimal(h) + seq![0x0au8]
}

/// The first component of `image` as a PGX image; an image without components is refused.
#[verifier::spinoff_prover]
pub fn pgx_bytes(image: &Image) -> (r: Result<Vec<u8>>)
    requires
        image.comps@.len() > 0 ==> image.comps@[0].w * image.comps@[0].h <= usize::MAX,
    ensures
        r is Err <==> image.comps@.len() == 0,
        r matches Ok(b) ==> b@ == pgx_header(
            image.comps@[0].sgnd,
            image.comps@[0].prec as nat,
            image.comps@[0].w as nat,
            image.comps@[0].h as nat,
        ) + pgx_body(
            image.comps@[0].data@,
            (image.comps@[0].w * image.comps@[0].h) as nat,
            image.comps@[0].prec as nat,
        ),
{
    if image.comps.len() == 0 {
        return Err(invalid("no components"));
    }
    let comp = &image.comps[0];
    let w = comp.w;
    let h = comp.h;
    let prec = comp.prec;
    let mut out: Vec<u8> = Vec::new();
    out.push(0x50);
    out.push(0x47);
    out.push(0x20);
    out.push(0x4d);
    out.push(0x4c);
    out.push(0x20);
    out.push(if comp.sgnd { 0x2d } else { 0x2b });
    push_decimal(&mut out, prec);
    out.push(0x20);
    push_decimal(&mut out, w);
    out.push(0x20);
    push_decimal(&mut out, h);
    out.push(0x0a);
    let ghost header = out@;
    proof {
        assert(header =~= pgx_header(comp.sgnd, prec as nat, w as nat, h as nat));
    }
    let npix = (w as usize) * (h as usize);
    let mut i: usize = 0;
    while i < npix
        invariant
            i <= npix,
            npix == w * h,
            prec == comp.prec,
            out@ == header + pgx_body(comp.data@, i as nat, prec as nat),
        decreases npix - i,
    {
        let v: i32 = if i < comp.data.len() { comp.data[i] } else { 0 };
        let u = v as u32;
        if prec > 16 {
            out.push((u / 0x100_0000) as u8);
            out.push(((u / 0x1_0000) % 256) as u8);
            out.push(((u / 256) % 256) as u8);
            out.push((u % 256) as u8);
        } else if prec > 8 {
            out.push(((u % 65536) / 256) as u8);
            out.push((u % 256) as u8);
        } else {
            out.push((u % 256) as u8);
        }
        i += 1;
        proof {
            assert(out@ =~= header + pgx_body(comp.data@, i as nat, prec as nat));
        }
    }
    Ok(out)
}

} // verus!
