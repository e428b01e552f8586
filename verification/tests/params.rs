use openjpeg_rs::j2k::params::{
    CodingParamMode, CodingParameters, DecodingParam, EncodingParam, Poc, QualityLayerAllocStrategy, Stepsize,
    T2Mode, TileCodingParameters, TileCompCodingParameters,
};
use openjpeg_rs::types::{COMP_PARAM_DEFAULT_NUMRESOLUTION, J2K_MAX_POCS, ProgressionOrder};


#[test]
fn t2_mode_values() {
    assert_eq!(T2Mode::ThreshCalc as i32, 0);
    assert_eq!(T2Mode::FinalPass as i32, 1);
    assert_ne!(T2Mode::ThreshCalc, T2Mode::FinalPass);
}

#[test]
fn quality_layer_alloc_strategy_values() {
    assert_eq!(QualityLayerAllocStrategy::RateDistortionRatio as i32, 0);
    assert_eq!(QualityLayerAllocStrategy::FixedDistortionRatio as i32, 1);
    assert_eq!(QualityLayerAllocStrategy::FixedLayer as i32, 2);
    assert_eq!(
        QualityLayerAllocStrategy::default(),
        QualityLayerAllocStrategy::RateDistortionRatio
    );
}

#[test]
fn stepsize_default() {
    let s = Stepsize::default();
    assert_eq!(s.expn, 0);
    assert_eq!(s.mant, 0);
}

#[test]
fn tccp_default() {
    let tccp = TileCompCodingParameters::default();
    assert_eq!(tccp.numresolutions, COMP_PARAM_DEFAULT_NUMRESOLUTION);
    assert_eq!(tccp.cblkw, 6);
    assert_eq!(tccp.cblkh, 6);
    assert_eq!(tccp.numgbits, 2);
    assert_eq!(tccp.prcw[0], 15);
    assert_eq!(tccp.prch[0], 15);
    assert_eq!(tccp.m_dc_level_shift, 0);
}

#[test]
fn poc_default() {
    let poc = Poc::default();
    assert_eq!(poc.resno0, 0);
    assert_eq!(poc.prg, ProgressionOrder::Lrcp);
    assert_eq!(poc.tx0, 0);
    assert_eq!(poc.dx, 0);
}

#[test]
fn encoding_param_default() {
    let ep = EncodingParam::default();
    assert_eq!(ep.m_max_comp_size, 0);
    assert!(!ep.m_tp_on);
    assert_eq!(
        ep.m_quality_layer_alloc_strategy,
        QualityLayerAllocStrategy::RateDistortionRatio
    );
}

#[test]
fn decoding_param_default() {
    let dp = DecodingParam::default();
    assert_eq!(dp.m_reduce, 0);
    assert_eq!(dp.m_layer, 0);
}

#[test]
fn coding_param_mode_variants() {
    let enc = CodingParamMode::Encoder(EncodingParam::default());
    assert!(matches!(enc, CodingParamMode::Encoder(_)));

    let dec = CodingParamMode::Decoder(DecodingParam::default());
    assert!(matches!(dec, CodingParamMode::Decoder(_)));
}

#[test]
fn tcp_default() {
    let tcp = TileCodingParameters::default();
    assert_eq!(tcp.numlayers, 1);
    assert_eq!(tcp.prg, ProgressionOrder::Lrcp);
    assert_eq!(tcp.pocs.len(), J2K_MAX_POCS);
    assert!(!tcp.cod);
    assert!(!tcp.poc);
}

#[test]
fn coding_parameters_encoder() {
    let cp = CodingParameters::new_encoder();
    assert!(!cp.is_decoder());
    assert!(cp.encoding_param().is_some());
    assert!(cp.decoding_param().is_none());
    assert!(cp.strict);
}

#[test]
fn coding_parameters_decoder() {
    let cp = CodingParameters::new_decoder();
    assert!(cp.is_decoder());
    assert!(cp.encoding_param().is_none());
    assert!(cp.decoding_param().is_some());
}

#[test]
fn tcp_duplicate_keeps_everything() {
    let mut tcp = TileCodingParameters::default();
    tcp.numlayers = 7;
    tcp.tccps.push(TileCompCodingParameters::default());
    tcp.tccps[0].cblkw = 4;
    let copy = tcp.duplicate();
    assert_eq!(copy.numlayers, 7);
    assert_eq!(copy.tccps.len(), 1);
    assert_eq!(copy.tccps[0].cblkw, 4);
    assert_eq!(copy.pocs.len(), J2K_MAX_POCS);
}
