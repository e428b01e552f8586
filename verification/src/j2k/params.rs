//! Coding parameters shared by the packet iterator, tier-2 and the tile coder.
use vstd::prelude::*;
use crate::types::{COMP_PARAM_DEFAULT_NUMRESOLUTION, J2K_MAX_POCS, J2K_MAXBANDS, J2K_MAXRLVLS, ProgressionOrder};

verus! {

/// Tier-2 processing mode.
#[derive(Debug, Clone, Copy, PartialEq, Eq, Structural)]
pub enum T2Mode {
    /// Rate allocation threshold calculation.
    ThreshCalc,
    /// Final encoding pass.
    FinalPass,
}

/// Quality layer allocation strategy.
#[derive(Debug, Default, Clone, Copy, PartialEq, Eq, Structural)]
pub enum QualityLayerAllocStrategy {
    /// Allocation by rate/distortion ratio.
    #[default]
    RateDistortionRatio,
    /// Allocation by fixed distortion ratio (PSNR).
    FixedDistortionRatio,
    /// Allocation by fixed layer.
    FixedLayer,
}

/// Quantization step size.
#[derive(Debug, Clone, Copy)]
pub struct Stepsize {
    pub expn: i32,
    pub mant: i32,
}

impl Default for Stepsize {
    fn default() -> (r: Self)
        ensures
            r.expn == 0 && r.mant == 0,
    {
        Stepsize { expn: 0, mant: 0 }
    }
}

/// Tile component coding parameters.
#[derive(Debug, Clone, Copy)]
pub struct TileCompCodingParameters {
    /// Coding style.
    pub csty: u32,
    /// Number of resolution levels.
    pub numresolutions: u32,
    /// Code-block width exponent: the width is `1 << cblkw`.
    pub cblkw: u32,
    /// Code-block height exponent: the height is `1 << cblkh`.
    pub cblkh: u32,
    /// Code-block coding style.
    pub cblksty: u32,
    /// Wavelet filter: 0 = 9-7 irreversible, 1 = 5-3 reversible.
    pub qmfbid: u32,
    /// Quantization style.
    pub qntsty: u32,
    /// Quantization step sizes.
    pub stepsizes: [Stepsize; J2K_MAXBANDS],
    /// Number of guard bits.
    pub numgbits: u32,
    /// Region-of-interest shift.
    pub roishift: i32,
    /// Precinct width exponents per resolution.
    pub prcw: [u32; J2K_MAXRLVLS],
    /// Precinct height exponents per resolution.
    pub prch: [u32; J2K_MAXRLVLS],
    /// DC level shift.
    pub m_dc_level_shift: i32,
}

/// Whether `r` holds the default component parameters: 6 resolutions, 64x64 code-blocks,
/// 2 guard bits, maximal precincts and everything else zero.
pub open spec fn is_default_tccp(r: TileCompCodingParameters) -> bool {
    &&& r.csty == 0
    &&& r.numresolutions == COMP_PARAM_DEFAULT_NUMRESOLUTION
    &&& r.cblkw == 6 && r.cblkh == 6
    &&& r.cblksty == 0 && r.qmfbid == 0 && r.qntsty == 0
    &&& forall|i: int| 0 <= i < J2K_MAXBANDS ==> #[trigger] r.stepsizes@[i].expn == 0 && r.stepsizes@[i].mant == 0
    &&& r.numgbits == 2
    &&& r.roishift == 0
    &&& forall|i: int| 0 <= i < J2K_MAXRLVLS ==> #[trigger] r.prcw@[i] == 15 && r.prch@[i] == 15
    &&& r.m_dc_level_shift == 0
}

impl Default for TileCompCodingParameters {
    fn default() -> (r: Self)
        ensures
            is_default_tccp(r),
    {
        TileCompCodingParameters {
            csty: 0,
            numresolutions: COMP_PARAM_DEFAULT_NUMRESOLUTION,
            cblkw: 6,
            cblkh: 6,
            cblksty: 0,
            qmfbid: 0,
            qntsty: 0,
            stepsizes: [Stepsize { expn: 0, mant: 0 }; 97],
            numgbits: 2,
            roishift: 0,
            prcw: [15u32; 33],
            prch: [15u32; 33],
            m_dc_level_shift: 0,
        }
    }
}

/// Progression order change: the bounds of one run of the packet iterator.
#[derive(Debug, Clone, Copy)]
pub struct Poc {
    pub resno0: u32,
    pub compno0: u32,
    pub layno1: u32,
    pub resno1: u32,
    pub compno1: u32,
    pub layno0: u32,
    pub precno0: u32,
    pub precno1: u32,
    pub prg1: ProgressionOrder,
    pub prg: ProgressionOrder,
    pub tile: u32,
    /// Tile origin X.
    pub tx0: i32,
    pub tx1: i32,
    pub ty0: i32,
    pub ty1: i32,
    pub lay_s: u32,
    pub res_s: u32,
    pub comp_s: u32,
    pub prc_s: u32,
    pub lay_e: u32,
    pub res_e: u32,
    pub comp_e: u32,
    pub prc_e: u32,
    pub tx_s: u32,
    pub tx_e: u32,
    pub ty_s: u32,
    pub ty_e: u32,
    pub dx: u32,
    pub dy: u32,
    pub lay_t: u32,
    pub res_t: u32,
    pub comp_t: u32,
    pub prc_t: u32,
    pub tx0_t: u32,
    pub ty0_t: u32,
}

/// The progression order change with all bounds at zero, in layer-resolution-component-
/// position order.
pub open spec fn zero_poc() -> Poc {
    Poc {
        resno0: 0,
        compno0: 0,
        layno1: 0,
        resno1: 0,
        compno1: 0,
        layno0: 0,
        precno0: 0,
        precno1: 0,
        prg1: ProgressionOrder::Lrcp,
        prg: ProgressionOrder::Lrcp,
        tile: 0,
        tx0: 0,
        tx1: 0,
        ty0: 0,
        ty1: 0,
        lay_s: 0,
        res_s: 0,
        comp_s: 0,
        prc_s: 0,
        lay_e: 0,
        res_e: 0,
        comp_e: 0,
        prc_e: 0,
        tx_s: 0,
        tx_e: 0,
        ty_s: 0,
        ty_e: 0,
        dx: 0,
        dy: 0,
        lay_t: 0,
        res_t: 0,
        comp_t: 0,
        prc_t: 0,
        tx0_t: 0,
        ty0_t: 0,
    }
}

impl Default for Poc {
    fn default() -> (r: Self)
        ensures
            r == zero_poc(),
    {
        Poc {
            resno0: 0,
            compno0: 0,
            layno1: 0,
            resno1: 0,
            compno1: 0,
            layno0: 0,
            precno0: 0,
            precno1: 0,
            prg1: ProgressionOrder::Lrcp,
            prg: ProgressionOrder::Lrcp,
            tile: 0,
            tx0: 0,
            tx1: 0,
            ty0: 0,
            ty1: 0,
            lay_s: 0,
            res_s: 0,
            comp_s: 0,
            prc_s: 0,
            lay_e: 0,
            res_e: 0,
            comp_e: 0,
            prc_e: 0,
            tx_s: 0,
            tx_e: 0,
            ty_s: 0,
            ty_e: 0,
            dx: 0,
            dy: 0,
            lay_t: 0,
            res_t: 0,
            comp_t: 0,
            prc_t: 0,
            tx0_t: 0,
            ty0_t: 0,
        }
    }
}

/// Encoding-specific parameters.
#[derive(Debug, Clone)]
pub struct EncodingParam {
    /// Maximum component size.
    pub m_max_comp_size: u32,
    /// Tile part position.
    pub m_tp_pos: i32,
    /// Tile parts enabled.
    pub m_tp_on: bool,
    /// Quality layer allocation strategy.
    pub m_quality_layer_alloc_strategy: QualityLayerAllocStrategy,
    /// Progression order matrix.
    pub m_matrice: Option<Vec<i32>>,
}

impl Default for EncodingParam {
    fn default() -> (r: Self)
        ensures
            r.m_max_comp_size == 0 && r.m_tp_pos == 0 && !r.m_tp_on,
            r.m_quality_layer_alloc_strategy == QualityLayerAllocStrategy::RateDistortionRatio,
            r.m_matrice is None,
    {
        EncodingParam {
            m_max_comp_size: 0,
            m_tp_pos: 0,
            m_tp_on: false,
            m_quality_layer_alloc_strategy: QualityLayerAllocStrategy::RateDistortionRatio,
            m_matrice: None,
        }
    }
}

/// Decoding-specific parameters.
#[derive(Debug, Clone, Copy)]
pub struct DecodingParam {
    /// Resolution reduction factor.
    pub m_reduce: u32,
    /// Maximum number of layers to decode.
    pub m_layer: u32,
}

impl Default for DecodingParam {
    fn default() -> (r: Self)
        ensures
            r.m_reduce == 0 && r.m_layer == 0,
    {
        DecodingParam { m_reduce: 0, m_layer: 0 }
    }
}

/// Encoder- or decoder-specific parameters.
#[derive(Debug, Clone)]
pub enum CodingParamMode {
    Encoder(EncodingParam),
    Decoder(DecodingParam),
}

/// Tile coding parameters: coding style, progression order, layers, multi-component
/// transform, progression order changes and the parameters of each component.
#[derive(Debug, Clone)]
pub struct TileCodingParameters {
    /// Coding style.
    pub csty: u32,
    /// Progression order.
    pub prg: ProgressionOrder,
    /// Number of quality layers.
    pub numlayers: u32,
    /// Number of layers to decode.
    pub num_layers_to_decode: u32,
    /// Multi-component transform: 0 none, 1 the reversible or irreversible transform.
    pub mct: u32,
    /// Number of progression order changes.
    pub numpocs: u32,
    /// Progression order changes.
    pub pocs: Vec<Poc>,
    /// Per-component coding parameters.
    pub tccps: Vec<TileCompCodingParameters>,
    /// Whether a COD marker was found.
    pub cod: bool,
    /// Whether a PPT marker was found.
    pub ppt: bool,
    /// Whether a POC marker was found.
    pub poc: bool,
}

/// `n` progression order changes at zero.
fn zero_pocs(n: usize) -> (v: Vec<Poc>)
    ensures
        v@.len() == n,
        forall|i: int| 0 <= i < n ==> #[trigger] v@[i] == zero_poc(),
{
    let mut v: Vec<Poc> = Vec::new();
    while v.len() < n
        invariant
            v@.len() <= n,
            forall|i: int| 0 <= i < v@.len() ==> #[trigger] v@[i] == zero_poc(),
        decreases n - v@.len(),
    {
        v.push(Poc::default());
    }
    v
}

impl Default for TileCodingParameters {
    fn default() -> (r: Self)
        ensures
            r.csty == 0 && r.prg == ProgressionOrder::Lrcp,
            r.numlayers == 1 && r.num_layers_to_decode == 1 && r.mct == 0,
            r.numpocs == 0,
            r.pocs@.len() == J2K_MAX_POCS,
            forall|i: int| 0 <= i < J2K_MAX_POCS ==> #[trigger] r.pocs@[i] == zero_poc(),
            r.tccps@.len() == 0,
            !r.cod && !r.ppt && !r.poc,
    {
        TileCodingParameters {
            csty: 0,
            prg: ProgressionOrder::Lrcp,
            numlayers: 1,
            num_layers_to_decode: 1,
            mct: 0,
            numpocs: 0,
            pocs: zero_pocs(J2K_MAX_POCS),
            tccps: Vec::new(),
            cod: false,
            ppt: false,
            poc: false,
        }
    }
}

impl TileCodingParameters {
    /// Whether `other` holds the same parameters as `self`.
    pub open spec fn same_as(self, other: Self) -> bool {
        &&& other.csty == self.csty
        &&& other.prg == self.prg
        &&& other.numlayers == self.numlayers
        &&& other.num_layers_to_decode == self.num_layers_to_decode
        &&& other.mct == self.mct
        &&& other.numpocs == self.numpocs
        &&& other.pocs@ == self.pocs@
        &&& other.tccps@ == self.tccps@
        &&& other.cod == self.cod
        &&& other.ppt == self.ppt
        &&& other.poc == self.poc
    }

    /// A copy of the parameters.
    pub fn duplicate(&self) -> (r: Self)
        ensures
            self.same_as(r),
    {
        let mut pocs: Vec<Poc> = Vec::new();
        let mut i: usize = 0;
        while i < self.pocs.len()
            invariant
                i <= self.pocs@.len(),
                pocs@ == self.pocs@.take(i as int),
            decreases self.pocs@.len() - i,
        {
            pocs.push(self.pocs[i]);
            i += 1;
        }
        let mut tccps: Vec<TileCompCodingParameters> = Vec::new();
        let mut j: usize = 0;
        while j < self.tccps.len()
            invariant
                j <= self.tccps@.len(),
                tccps@ == self.tccps@.take(j as int),
            decreases self.tccps@.len() - j,
        {
            tccps.push(self.tccps[j]);
            j += 1;
        }
        assert(pocs@ =~= self.pocs@);
        assert(tccps@ =~= self.tccps@);
        TileCodingParameters {
            csty: self.csty,
            prg: self.prg,
            numlayers: self.numlayers,
            num_layers_to_decode: self.num_layers_to_decode,
            mct: self.mct,
            numpocs: self.numpocs,
            pocs,
            tccps,
            cod: self.cod,
            ppt: self.ppt,
            poc: self.poc,
        }
    }
}

/// Coding parameters of a codestream: profile, tile grid, per-tile parameters and the
/// encoder- or decoder-specific part.
#[derive(Debug, Clone)]
pub struct CodingParameters {
    /// Profile.
    pub rsiz: u16,
    /// Tile grid origin, horizontal.
    pub tx0: u32,
    /// Tile grid origin, vertical.
    pub ty0: u32,
    /// Tile width.
    pub tdx: u32,
    /// Tile height.
    pub tdy: u32,
    /// Number of tiles across.
    pub tw: u32,
    /// Number of tiles down.
    pub th: u32,
    /// Per-tile coding parameters.
    pub tcps: Vec<TileCodingParameters>,
    /// Encoder or decoder specific parameters.
    pub mode: CodingParamMode,
    /// Strict mode.
    pub strict: bool,
    /// Whether a PPM marker is present.
    pub ppm: bool,
}

impl CodingParameters {
    /// Whether the grid and flags are those of freshly made parameters.
    pub open spec fn is_fresh(self) -> bool {
        &&& self.rsiz == 0 && self.tx0 == 0 && self.ty0 == 0
        &&& self.tdx == 0 && self.tdy == 0 && self.tw == 0 && self.th == 0
        &&& self.tcps@.len() == 0
        &&& self.strict && !self.ppm
    }

    /// Parameters for encoding, with default encoding parameters.
    pub fn new_encoder() -> (r: Self)
        ensures
            r.is_fresh(),
            r.mode matches CodingParamMode::Encoder(p) && p.m_max_comp_size == 0 && p.m_tp_pos == 0 && !p.m_tp_on
                && p.m_quality_layer_alloc_strategy == QualityLayerAllocStrategy::RateDistortionRatio
                && p.m_matrice is None,
    {
        CodingParameters {
            rsiz: 0,
            tx0: 0,
            ty0: 0,
            tdx: 0,
            tdy: 0,
            tw: 0,
            th: 0,
            tcps: Vec::new(),
            mode: CodingParamMode::Encoder(EncodingParam::default()),
            strict: true,
            ppm: false,
        }
    }

    /// Parameters for decoding, with default decoding parameters.
    pub fn new_decoder() -> (r: Self)
        ensures
            r.is_fresh(),
            r.mode matches CodingParamMode::Decoder(p) && p.m_reduce == 0 && p.m_layer == 0,
    {
        CodingParameters {
            rsiz: 0,
            tx0: 0,
            ty0: 0,
            tdx: 0,
            tdy: 0,
            tw: 0,
            th: 0,
            tcps: Vec::new(),
            mode: CodingParamMode::Decoder(DecodingParam::default()),
            strict: true,
            ppm: false,
        }
    }

    /// Whether these are decoding parameters.
    pub fn is_decoder(&self) -> (r: bool)
        ensures
            r <==> self.mode is Decoder,
    {
        match self.mode {
            CodingParamMode::Decoder(_) => true,
            _ => false,
        }
    }

    /// The encoding parameters, in encoder mode.
    pub fn encoding_param(&self) -> (r: Option<&EncodingParam>)
        ensures
            self.mode matches CodingParamMode::Encoder(p) ==> r == Some(&p),
            self.mode is Decoder ==> r is None,
    {
        match &self.mode {
            CodingParamMode::Encoder(p) => Some(p),
            _ => None,
        }
    }

    /// The decoding parameters, in decoder mode.
    pub fn decoding_param(&self) -> (r: Option<&DecodingParam>)
        ensures
            self.mode matches CodingParamMode::Decoder(p) ==> r == Some(&p),
            self.mode is Encoder ==> r is None,
    {
        match &self.mode {
            CodingParamMode::Decoder(p) => Some(p),
            _ => None,
        }
    }
}

} // verus!
