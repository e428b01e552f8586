//! Image and image component structures.
use vstd::prelude::*;
use crate::types::ColorSpace;

verus! {

/// Component creation parameters.
pub struct ImageCompParam {
    pub dx: u32,
    pub dy: u32,
    pub w: u32,
    pub h: u32,
    pub x0: u32,
    pub y0: u32,
    pub prec: u32,
    pub sgnd: bool,
}

/// Image component.
#[derive(Debug, Clone)]
pub struct ImageComp {
    pub dx: u32,
    pub dy: u32,
    pub w: u32,
    pub h: u32,
    pub x0: u32,
    pub y0: u32,
    pub prec: u32,
    pub sgnd: bool,
    pub resno_decoded: u32,
    pub factor: u32,
    pub data: Vec<i32>,
    pub alpha: u16,
}

/// Image: its area on the reference grid, colour space, components and ICC profile.
pub struct Image {
    pub x0: u32,
    pub y0: u32,
    pub x1: u32,
    pub y1: u32,
    pub color_space: ColorSpace,
    pub comps: Vec<ImageComp>,
    pub icc_profile: Vec<u8>,
}

/// A vector of `n` zeros.
pub fn zeroed_i32(n: usize) -> (v: Vec<i32>)
    ensures
        v@ == Seq::new(n as nat, |i: int| 0i32),
{
    let mut v: Vec<i32> = Vec::new();
    while v.len() < n
        invariant
            v.len() <= n,
            forall|i: int| 0 <= i < v.len() ==> v@[i] == 0i32,
        decreases n - v.len(),
    {
        v.push(0);
    }
    assert(v@ =~= Seq::new(n as nat, |i: int| 0i32));
    v
}

/// Whether component `c` carries the geometry and precision of `p`, undecoded.
pub open spec fn comp_matches_param(c: ImageComp, p: ImageCompParam) -> bool {
    &&& c.dx == p.dx
    &&& c.dy == p.dy
    &&& c.w == p.w
    &&& c.h == p.h
    &&& c.x0 == p.x0
    &&& c.y0 == p.y0
    &&& c.prec == p.prec
    &&& c.sgnd == p.sgnd
    &&& c.resno_decoded == 0
    &&& c.factor == 0
    &&& c.alpha == 0
}

/// Whether `c` is a copy of `orig` without its sample data.
pub open spec fn comp_header_copy(c: ImageComp, orig: ImageComp) -> bool {
    &&& c.dx == orig.dx
    &&& c.dy == orig.dy
    &&& c.w == orig.w
    &&& c.h == orig.h
    &&& c.x0 == orig.x0
    &&& c.y0 == orig.y0
    &&& c.prec == orig.prec
    &&& c.sgnd == orig.sgnd
    &&& c.resno_decoded == orig.resno_decoded
    &&& c.factor == orig.factor
    &&& c.alpha == orig.alpha
    &&& c.data@.len() == 0
}

fn comp_new(p: &ImageCompParam, data: Vec<i32>) -> (c: ImageComp)
    ensures
        comp_matches_param(c, *p),
        c.data@ == data@,
{
    ImageComp {
        dx: p.dx,
        dy: p.dy,
        w: p.w,
        h: p.h,
        x0: p.x0,
        y0: p.y0,
        prec: p.prec,
        sgnd: p.sgnd,
        resno_decoded: 0,
        factor: 0,
        data,
        alpha: 0,
    }
}

impl Image {
    /// Creates an image whose components hold `w * h` zero samples each.
    pub fn new(params: &[ImageCompParam], color_space: ColorSpace) -> (img: Self)
        requires
            forall|i: int| 0 <= i < params@.len() ==> params@[i].w * params@[i].h <= usize::MAX,
        ensures
            img.x0 == 0 && img.y0 == 0 && img.x1 == 0 && img.y1 == 0,
            img.color_space == color_space,
            img.icc_profile@.len() == 0,
            img.comps@.len() == params@.len(),
            forall|i: int|
                0 <= i < params@.len() ==> {
                    &&& comp_matches_param(#[trigger] img.comps@[i], params@[i])
                    &&& img.comps@[i].data@ == Seq::new(
                        (params@[i].w * params@[i].h) as nat,
                        |k: int| 0i32,
                    )
                },
    {
        let mut comps: Vec<ImageComp> = Vec::new();
        let mut i: usize = 0;
        while i < params.len()
            invariant
                i <= params@.len(),
                comps@.len() == i,
                forall|j: int| 0 <= j < params@.len() ==> params@[j].w * params@[j].h <= usize::MAX,
                forall|j: int|
                    0 <= j < i ==> {
                        &&& comp_matches_param(#[trigger] comps@[j], params@[j])
                        &&& comps@[j].data@ == Seq::new(
                            (params@[j].w * params@[j].h) as nat,
                            |k: int| 0i32,
                        )
                    },
            decreases params@.len() - i,
        {
            let p = &params[i];
            assert(p.w * p.h <= usize::MAX);
            let size = (p.w as usize) * (p.h as usize);
            let c = comp_new(p, zeroed_i32(size));
            comps.push(c);
            i += 1;
        }
        Image { x0: 0, y0: 0, x1: 0, y1: 0, color_space, comps, icc_profile: Vec::new() }
    }

    /// Creates a tile image: the components are described but hold no samples.
    pub fn new_tile(params: &[ImageCompParam], color_space: ColorSpace) -> (img: Self)
        ensures
            img.x0 == 0 && img.y0 == 0 && img.x1 == 0 && img.y1 == 0,
            img.color_space == color_space,
            img.icc_profile@.len() == 0,
            img.comps@.len() == params@.len(),
            forall|i: int|
                0 <= i < params@.len() ==> {
                    &&& comp_matches_param(#[trigger] img.comps@[i], params@[i])
                    &&& img.comps@[i].data@.len() == 0
                },
    {
        let mut comps: Vec<ImageComp> = Vec::new();
        let mut i: usize = 0;
        while i < params.len()
            invariant
                i <= params@.len(),
                comps@.len() == i,
                forall|j: int|
                    0 <= j < i ==> {
                        &&& comp_matches_param(#[trigger] comps@[j], params@[j])
                        &&& comps@[j].data@.len() == 0
                    },
            decreases params@.len() - i,
        {
            let c = comp_new(&params[i], Vec::new());
            comps.push(c);
            i += 1;
        }
        Image { x0: 0, y0: 0, x1: 0, y1: 0, color_space, comps, icc_profile: Vec::new() }
    }

    /// Copies the header and the component descriptions, leaving out the sample data.
    pub fn clone_header(&self) -> (img: Self)
        ensures
            img.x0 == self.x0 && img.y0 == self.y0 && img.x1 == self.x1 && img.y1 == self.y1,
            img.color_space == self.color_space,
            img.icc_profile@ == self.icc_profile@,
            img.comps@.len() == self.comps@.len(),
            forall|i: int|
                0 <= i < self.comps@.len() ==> comp_header_copy(
                    #[trigger] img.comps@[i],
                    self.comps@[i],
                ),
    {
        let mut comps: Vec<ImageComp> = Vec::new();
        let mut i: usize = 0;
        while i < self.comps.len()
            invariant
                i <= self.comps@.len(),
                comps@.len() == i,
                forall|j: int| 0 <= j < i ==> comp_header_copy(#[trigger] comps@[j], self.comps@[j]),
            decreases self.comps@.len() - i,
        {
            let c = &self.comps[i];
            comps.push(
                ImageComp {
                    dx: c.dx,
                    dy: c.dy,
                    w: c.w,
                    h: c.h,
                    x0: c.x0,
                    y0: c.y0,
                    prec: c.prec,
                    sgnd: c.sgnd,
                    resno_decoded: c.resno_decoded,
                    factor: c.factor,
                    data: Vec::new(),
                    alpha: c.alpha,
                },
            );
            i += 1;
        }
        let mut icc: Vec<u8> = Vec::new();
        let mut k: usize = 0;
        while k < self.icc_profile.len()
            invariant
                k <= self.icc_profile@.len(),
                icc@ == self.icc_profile@.take(k as int),
            decreases self.icc_profile@.len() - k,
        {
            icc.push(self.icc_profile[k]);
            k += 1;
            assert(icc@ =~= self.icc_profile@.take(k as int));
        }
        assert(icc@ =~= self.icc_profile@);
        Image {
            x0: self.x0,
            y0: self.y0,
            x1: self.x1,
            y1: self.y1,
            color_space: self.color_space,
            comps,
            icc_profile: icc,
        }
    }
}

} // verus!
