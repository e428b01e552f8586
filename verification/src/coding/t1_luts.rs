//! Lookup tables of the tier-1 coder, indexed by neighbourhood patterns: the contexts
//! of zero coding and sign coding, the sign prediction bit, and the estimated decrease of
//! squared error, in units of 2^-13, of significance and refinement decisions.
use vstd::prelude::*;

verus! {

/// Zero-coding context, indexed by `(orient << 9) | neighbour significance`.
pub const LUT_CTXNO_ZC: [u8; 2048] = [
    0x00, 0x01, 0x03, 0x03, 0x01, 0x02, 0x03, 0x03, 0x05, 0x06, 0x07, 0x07, 0x06, 0x06, 0x07, 0x07,
    0x00, 0x01, 0x03, 0x03, 0x01, 0x02, 0x03, 0x03, 0x05, 0x06, 0x07, 0x07, 0x06, 0x06, 0x07, 0x07,
    0x05, 0x06, 0x07, 0x07, 0x06, 0x06, 0x07, 0x07, 0x08, 0x08, 0x08, 0x08, 0x08, 0x08, 0x08, 0x08,
    0x05, 0x06, 0x07, 0x07, 0x06, 0x06, 0x07, 0x07, 0x08, 0x08, 0x08, 0x08, 0x08, 0x08, 0x08, 0x08,
    0x01, 0x02, 0x03, 0x03, 0x02, 0x02, 0x03, 0x03, 0x06, 0x06, 0x07, 0x07, 0x06, 0x06, 0x07, 0x07,
    0x01, 0x02, 0x03, 0x03, 0x02, 0x02, 0x03, 0x03, 0x06, 0x06, 0x07, 0x07, 0x06, 0x06, 0x07, 0x07,
    0x06, 0x06, 0x07, 0x07, 0x06, 0x06, 0x07, 0x07, 0x08, 0x08, 0x08, 0x08, 0x08, 0x08, 0x08, 0x08,
    0x06, 0x06, 0x07, 0x07, 0x06, 0x06, 0x07, 0x07, 0x08, 0x08, 0x08, 0x08, 0x08, 0x08, 0x08, 0x08,
    0x03, 0x03, 0x04, 0x04, 0x03, 0x03, 0x04, 0x04, 0x07, 0x07, 0x07, 0x07, 0x07, 0x07, 0x07, 0x07,
    0x03, 0x03, 0x04, 0x04, 0x03, 0x03, 0x04, 0x04, 0x07, 0x07, 0x07, 0x07, 0x07, 0x07, 0x07, 0x07,
    0x07, 0x07, 0x07, 0x07, 0x07, 0x07, 0x07, 0x07, 0x08, 0x08, 0x08, 0x08, 0x08, 0x08, 0x08, 0x08,
    0x07, 0x07, 0x07, 0x07, 0x07, 0x07, 0x07, 0x07, 0x08, 0x08, 0x08, 0x08, 0x08, 0x08, 0x08, 0x08,
    0x03, 0x03, 0x04, 0x04, 0x03, 0x03, 0x04, 0x04, 0x07, 0x07, 0x07, 0x07, 0x07, 0x07, 0x07, 0x07,
    0x03, 0x03, 0x04, 0x04, 0x03, 0x03, 0x04, 0x04, 0x07, 0x07, 0x07, 0x07, 0x07, 0x07, 0x07, 0x07,
    0x07, 0x07, 0x07, 0x07, 0x07, 0x07, 0x07, 0x07, 0x08, 0x08, 0x08, 0x08, 0x08, 0x08, 0x08, 0x08,
    0x07, 0x07, 0x07, 0x07, 0x07, 0x07, 0x07, 0x07, 0x08, 0x08, 0x08, 0x08, 0x08, 0x08, 0x08, 0x08,
    0x01, 0x02, 0x03, 0x03, 0x02, 0x02, 0x03, 0x03, 0x06, 0x06, 0x07, 0x07, 0x06, 0x06, 0x07, 0x07,
    0x01, 0x02, 0x03, 0x03, 0x02, 0x02, 0x03, 0x03, 0x06, 0x06, 0x07, 0x07, 0x06, 0x06, 0x07, 0x07,
    0x06, 0x06, 0x07, 0x07, 0x06, 0x06, 0x07, 0x07, 0x08, 0x08, 0x08, 0x08, 0x08, 0x08, 0x08, 0x08,
    0x06, 0x06, 0x07, 0x07, 0x06, 0x06, 0x07, 0x07, 0x08, 0x08, 0x08, 0x08, 0x08, 0x08, 0x08, 0x08,
    0x02, 0x02, 0x03, 0x03, 0x02, 0x02, 0x03, 0x03, 0x06, 0x06, 0x07, 0x07, 0x06, 0x06, 0x07, 0x07,
    0x02, 0x02, 0x03, 0x03, 0x02, 0x02, 0x03, 0x03, 0x06, 0x06, 0x07, 0x07, 0x06, 0x06, 0x07, 0x07,
    0x06, 0x06, 0x07, 0x07, 0x06, 0x06, 0x07, 0x07, 0x08, 0x08, 0x08, 0x08, 0x08, 0x08, 0x08, 0x08,
    0x06, 0x06, 0x07, 0x07, 0x06, 0x06, 0x07, 0x07, 0x08, 0x08, 0x08, 0x08, 0x08, 0x08, 0x08, 0x08,
    0x03, 0x03, 0x04, 0x04, 0x03, 0x03, 0x04, 0x04, 0x07, 0x07, 0x07, 0x07, 0x07, 0x07, 0x07, 0x07,
    0x03, 0x03, 0x04, 0x04, 0x03, 0x03, 0x04, 0x04, 0x07, 0x07, 0x07, 0x07, 0x07, 0x07, 0x07, 0x07,
    0x07, 0x07, 0x07, 0x07, 0x07, 0x07, 0x07, 0x07, 0x08, 0x08, 0x08, 0x08, 0x08, 0x08, 0x08, 0x08,
    0x07, 0x07, 0x07, 0x07, 0x07, 0x07, 0x07, 0x07, 0x08, 0x08, 0x08, 0x08, 0x08, 0x08, 0x08, 0x08,
    0x03, 0x03, 0x04, 0x04, 0x03, 0x03, 0x04, 0x04, 0x07, 0x07, 0x07, 0x07, 0x07, 0x07, 0x07, 0x07,
    0x03, 0x03, 0x04, 0x04, 0x03, 0x03, 0x04, 0x04, 0x07, 0x07, 0x07, 0x07, 0x07, 0x07, 0x07, 0x07,
    0x07, 0x07, 0x07, 0x07, 0x07, 0x07, 0x07, 0x07, 0x08, 0x08, 0x08, 0x08, 0x08, 0x08, 0x08, 0x08,
    0x07, 0x07, 0x07, 0x07, 0x07, 0x07, 0x07, 0x07, 0x08, 0x08, 0x08, 0x08, 0x08, 0x08, 0x08, 0x08,
    0x00, 0x01, 0x03, 0x03, 0x01, 0x02, 0x03, 0x03, 0x05, 0x06, 0x07, 0x07, 0x06, 0x06, 0x07, 0x07,
    0x00, 0x01, 0x03, 0x03, 0x01, 0x02, 0x03, 0x03, 0x05, 0x06, 0x07, 0x07, 0x06, 0x06, 0x07, 0x07,
    0x05, 0x06, 0x07, 0x07, 0x06, 0x06, 0x07, 0x07, 0x08, 0x08, 0x08, 0x08, 0x08, 0x08, 0x08, 0x08,
    0x05, 0x06, 0x07, 0x07, 0x06, 0x06, 0x07, 0x07, 0x08, 0x08, 0x08, 0x08, 0x08, 0x08, 0x08, 0x08,
    0x01, 0x02, 0x03, 0x03, 0x02, 0x02, 0x03, 0x03, 0x06, 0x06, 0x07, 0x07, 0x06, 0x06, 0x07, 0x07,
    0x01, 0x02, 0x03, 0x03, 0x02, 0x02, 0x03, 0x03, 0x06, 0x06, 0x07, 0x07, 0x06, 0x06, 0x07, 0x07,
    0x06, 0x06, 0x07, 0x07, 0x06, 0x06, 0x07, 0x07, 0x08, 0x08, 0x08, 0x08, 0x08, 0x08, 0x08, 0x08,
    0x06, 0x06, 0x07, 0x07, 0x06, 0x06, 0x07, 0x07, 0x08, 0x08, 0x08, 0x08, 0x08, 0x08, 0x08, 0x08,
    0x03, 0x03, 0x04, 0x04, 0x03, 0x03, 0x04, 0x04, 0x07, 0x07, 0x07, 0x07, 0x07, 0x07, 0x07, 0x07,
    0x03, 0x03, 0x04, 0x04, 0x03, 0x03, 0x04, 0x04, 0x07, 0x07, 0x07, 0x07, 0x07, 0x07, 0x07, 0x07,
    0x07, 0x07, 0x07, 0x07, 0x07, 0x07, 0x07, 0x07, 0x08, 0x08, 0x08, 0x08, 0x08, 0x08, 0x08, 0x08,
    0x07, 0x07, 0x07, 0x07, 0x07, 0x07, 0x07, 0x07, 0x08, 0x08, 0x08, 0x08, 0x08, 0x08, 0x08, 0x08,
    0x03, 0x03, 0x04, 0x04, 0x03, 0x03, 0x04, 0x04, 0x07, 0x07, 0x07, 0x07, 0x07, 0x07, 0x07, 0x07,
    0x03, 0x03, 0x04, 0x04, 0x03, 0x03, 0x04, 0x04, 0x07, 0x07, 0x07, 0x07, 0x07, 0x07, 0x07, 0x07,
    0x07, 0x07, 0x07, 0x07, 0x07, 0x07, 0x07, 0x07, 0x08, 0x08, 0x08, 0x08, 0x08, 0x08, 0x08, 0x08,
    0x07, 0x07, 0x07, 0x07, 0x07, 0x07, 0x07, 0x07, 0x08, 0x08, 0x08, 0x08, 0x08, 0x08, 0x08, 0x08,
    0x01, 0x02, 0x03, 0x03, 0x02, 0x02, 0x03, 0x03, 0x06, 0x06, 0x07, 0x07, 0x06, 0x06, 0x07, 0x07,
    0x01, 0x02, 0x03, 0x03, 0x02, 0x02, 0x03, 0x03, 0x06, 0x06, 0x07, 0x07, 0x06, 0x06, 0x07, 0x07,
    0x06, 0x06, 0x07, 0x07, 0x06, 0x06, 0x07, 0x07, 0x08, 0x08, 0x08, 0x08, 0x08, 0x08, 0x08, 0x08,
    0x06, 0x06, 0x07, 0x07, 0x06, 0x06, 0x07, 0x07, 0x08, 0x08, 0x08, 0x08, 0x08, 0x08, 0x08, 0x08,
    0x02, 0x02, 0x03, 0x03, 0x02, 0x02, 0x03, 0x03, 0x06, 0x06, 0x07, 0x07, 0x06, 0x06, 0x07, 0x07,
    0x02, 0x02, 0x03, 0x03, 0x02, 0x02, 0x03, 0x03, 0x06, 0x06, 0x07, 0x07, 0x06, 0x06, 0x07, 0x07,
    0x06, 0x06, 0x07, 0x07, 0x06, 0x06, 0x07, 0x07, 0x08, 0x08, 0x08, 0x08, 0x08, 0x08, 0x08, 0x08,
    0x06, 0x06, 0x07, 0x07, 0x06, 0x06, 0x07, 0x07, 0x08, 0x08, 0x08, 0x08, 0x08, 0x08, 0x08, 0x08,
    0x03, 0x03, 0x04, 0x04, 0x03, 0x03, 0x04, 0x04, 0x07, 0x07, 0x07, 0x07, 0x07, 0x07, 0x07, 0x07,
    0x03, 0x03, 0x04, 0x04, 0x03, 0x03, 0x04, 0x04, 0x07, 0x07, 0x07, 0x07, 0x07, 0x07, 0x07, 0x07,
    0x07, 0x07, 0x07, 0x07, 0x07, 0x07, 0x07, 0x07, 0x08, 0x08, 0x08, 0x08, 0x08, 0x08, 0x08, 0x08,
    0x07, 0x07, 0x07, 0x07, 0x07, 0x07, 0x07, 0x07, 0x08, 0x08, 0x08, 0x08, 0x08, 0x08, 0x08, 0x08,
    0x03, 0x03, 0x04, 0x04, 0x03, 0x03, 0x04, 0x04, 0x07, 0x07, 0x07, 0x07, 0x07, 0x07, 0x07, 0x07,
    0x03, 0x03, 0x04, 0x04, 0x03, 0x03, 0x04, 0x04, 0x07, 0x07, 0x07, 0x07, 0x07, 0x07, 0x07, 0x07,
    0x07, 0x07, 0x07, 0x07, 0x07, 0x07, 0x07, 0x07, 0x08, 0x08, 0x08, 0x08, 0x08, 0x08, 0x08, 0x08,
    0x07, 0x07, 0x07, 0x07, 0x07, 0x07, 0x07, 0x07, 0x08, 0x08, 0x08, 0x08, 0x08, 0x08, 0x08, 0x08,
    0x00, 0x01, 0x05, 0x06, 0x01, 0x02, 0x06, 0x06, 0x03, 0x03, 0x07, 0x07, 0x03, 0x03, 0x07, 0x07,
    0x00, 0x01, 0x05, 0x06, 0x01, 0x02, 0x06, 0x06, 0x03, 0x03, 0x07, 0x07, 0x03, 0x03, 0x07, 0x07,
    0x03, 0x03, 0x07, 0x07, 0x03, 0x03, 0x07, 0x07, 0x04, 0x04, 0x07, 0x07, 0x04, 0x04, 0x07, 0x07,
    0x03, 0x03, 0x07, 0x07, 0x03, 0x03, 0x07, 0x07, 0x04, 0x04, 0x07, 0x07, 0x04, 0x04, 0x07, 0x07,
    0x01, 0x02, 0x06, 0x06, 0x02, 0x02, 0x06, 0x06, 0x03, 0x03, 0x07, 0x07, 0x03, 0x03, 0x07, 0x07,
    0x01, 0x02, 0x06, 0x06, 0x02, 0x02, 0x06, 0x06, 0x03, 0x03, 0x07, 0x07, 0x03, 0x03, 0x07, 0x07,
    0x03, 0x03, 0x07, 0x07, 0x03, 0x03, 0x07, 0x07, 0x04, 0x04, 0x07, 0x07, 0x04, 0x04, 0x07, 0x07,
    0x03, 0x03, 0x07, 0x07, 0x03, 0x03, 0x07, 0x07, 0x04, 0x04, 0x07, 0x07, 0x04, 0x04, 0x07, 0x07,
    0x05, 0x06, 0x08, 0x08, 0x06, 0x06, 0x08, 0x08, 0x07, 0x07, 0x08, 0x08, 0x07, 0x07, 0x08, 0x08,
    0x05, 0x06, 0x08, 0x08, 0x06, 0x06, 0x08, 0x08, 0x07, 0x07, 0x08, 0x08, 0x07, 0x07, 0x08, 0x08,
    0x07, 0x07, 0x08, 0x08, 0x07, 0x07, 0x08, 0x08, 0x07, 0x07, 0x08, 0x08, 0x07, 0x07, 0x08, 0x08,
    0x07, 0x07, 0x08, 0x08, 0x07, 0x07, 0x08, 0x08, 0x07, 0x07, 0x08, 0x08, 0x07, 0x07, 0x08, 0x08,
    0x06, 0x06, 0x08, 0x08, 0x06, 0x06, 0x08, 0x08, 0x07, 0x07, 0x08, 0x08, 0x07, 0x07, 0x08, 0x08,
    0x06, 0x06, 0x08, 0x08, 0x06, 0x06, 0x08, 0x08, 0x07, 0x07, 0x08, 0x08, 0x07, 0x07, 0x08, 0x08,
    0x07, 0x07, 0x08, 0x08, 0x07, 0x07, 0x08, 0x08, 0x07, 0x07, 0x08, 0x08, 0x07, 0x07, 0x08, 0x08,
    0x07, 0x07, 0x08, 0x08, 0x07, 0x07, 0x08, 0x08, 0x07, 0x07, 0x08, 0x08, 0x07, 0x07, 0x08, 0x08,
    0x01, 0x02, 0x06, 0x06, 0x02, 0x02, 0x06, 0x06, 0x03, 0x03, 0x07, 0x07, 0x03, 0x03, 0x07, 0x07,
    0x01, 0x02, 0x06, 0x06, 0x02, 0x02, 0x06, 0x06, 0x03, 0x03, 0x07, 0x07, 0x03, 0x03, 0x07, 0x07,
    0x03, 0x03, 0x07, 0x07, 0x03, 0x03, 0x07, 0x07, 0x04, 0x04, 0x07, 0x07, 0x04, 0x04, 0x07, 0x07,
    0x03, 0x03, 0x07, 0x07, 0x03, 0x03, 0x07, 0x07, 0x04, 0x04, 0x07, 0x07, 0x04, 0x04, 0x07, 0x07,
    0x02, 0x02, 0x06, 0x06, 0x02, 0x02, 0x06, 0x06, 0x03, 0x03, 0x07, 0x07, 0x03, 0x03, 0x07, 0x07,
    0x02, 0x02, 0x06, 0x06, 0x02, 0x02, 0x06, 0x06, 0x03, 0x03, 0x07, 0x07, 0x03, 0x03, 0x07, 0x07,
    0x03, 0x03, 0x07, 0x07, 0x03, 0x03, 0x07, 0x07, 0x04, 0x04, 0x07, 0x07, 0x04, 0x04, 0x07, 0x07,
    0x03, 0x03, 0x07, 0x07, 0x03, 0x03, 0x07, 0x07, 0x04, 0x04, 0x07, 0x07, 0x04, 0x04, 0x07, 0x07,
    0x06, 0x06, 0x08, 0x08, 0x06, 0x06, 0x08, 0x08, 0x07, 0x07, 0x08, 0x08, 0x07, 0x07, 0x08, 0x08,
    0x06, 0x06, 0x08, 0x08, 0x06, 0x06, 0x08, 0x08, 0x07, 0x07, 0x08, 0x08, 0x07, 0x07, 0x08, 0x08,
    0x07, 0x07, 0x08, 0x08, 0x07, 0x07, 0x08, 0x08, 0x07, 0x07, 0x08, 0x08, 0x07, 0x07, 0x08, 0x08,
    0x07, 0x07, 0x08, 0x08, 0x07, 0x07, 0x08, 0x08, 0x07, 0x07, 0x08, 0x08, 0x07, 0x07, 0x08, 0x08,
    0x06, 0x06, 0x08, 0x08, 0x06, 0x06, 0x08, 0x08, 0x07, 0x07, 0x08, 0x08, 0x07, 0x07, 0x08, 0x08,
    0x06, 0x06, 0x08, 0x08, 0x06, 0x06, 0x08, 0x08, 0x07, 0x07, 0x08, 0x08, 0x07, 0x07, 0x08, 0x08,
    0x07, 0x07, 0x08, 0x08, 0x07, 0x07, 0x08, 0x08, 0x07, 0x07, 0x08, 0x08, 0x07, 0x07, 0x08, 0x08,
    0x07, 0x07, 0x08, 0x08, 0x07, 0x07, 0x08, 0x08, 0x07, 0x07, 0x08, 0x08, 0x07, 0x07, 0x08, 0x08,
    0x00, 0x03, 0x01, 0x04, 0x03, 0x06, 0x04, 0x07, 0x01, 0x04, 0x02, 0x05, 0x04, 0x07, 0x05, 0x07,
    0x00, 0x03, 0x01, 0x04, 0x03, 0x06, 0x04, 0x07, 0x01, 0x04, 0x02, 0x05, 0x04, 0x07, 0x05, 0x07,
    0x01, 0x04, 0x02, 0x05, 0x04, 0x07, 0x05, 0x07, 0x02, 0x05, 0x02, 0x05, 0x05, 0x07, 0x05, 0x07,
    0x01, 0x04, 0x02, 0x05, 0x04, 0x07, 0x05, 0x07, 0x02, 0x05, 0x02, 0x05, 0x05, 0x07, 0x05, 0x07,
    0x03, 0x06, 0x04, 0x07, 0x06, 0x08, 0x07, 0x08, 0x04, 0x07, 0x05, 0x07, 0x07, 0x08, 0x07, 0x08,
    0x03, 0x06, 0x04, 0x07, 0x06, 0x08, 0x07, 0x08, 0x04, 0x07, 0x05, 0x07, 0x07, 0x08, 0x07, 0x08,
    0x04, 0x07, 0x05, 0x07, 0x07, 0x08, 0x07, 0x08, 0x05, 0x07, 0x05, 0x07, 0x07, 0x08, 0x07, 0x08,
    0x04, 0x07, 0x05, 0x07, 0x07, 0x08, 0x07, 0x08, 0x05, 0x07, 0x05, 0x07, 0x07, 0x08, 0x07, 0x08,
    0x01, 0x04, 0x02, 0x05, 0x04, 0x07, 0x05, 0x07, 0x02, 0x05, 0x02, 0x05, 0x05, 0x07, 0x05, 0x07,
    0x01, 0x04, 0x02, 0x05, 0x04, 0x07, 0x05, 0x07, 0x02, 0x05, 0x02, 0x05, 0x05, 0x07, 0x05, 0x07,
    0x02, 0x05, 0x02, 0x05, 0x05, 0x07, 0x05, 0x07, 0x02, 0x05, 0x02, 0x05, 0x05, 0x07, 0x05, 0x07,
    0x02, 0x05, 0x02, 0x05, 0x05, 0x07, 0x05, 0x07, 0x02, 0x05, 0x02, 0x05, 0x05, 0x07, 0x05, 0x07,
    0x04, 0x07, 0x05, 0x07, 0x07, 0x08, 0x07, 0x08, 0x05, 0x07, 0x05, 0x07, 0x07, 0x08, 0x07, 0x08,
    0x04, 0x07, 0x05, 0x07, 0x07, 0x08, 0x07, 0x08, 0x05, 0x07, 0x05, 0x07, 0x07, 0x08, 0x07, 0x08,
    0x05, 0x07, 0x05, 0x07, 0x07, 0x08, 0x07, 0x08, 0x05, 0x07, 0x05, 0x07, 0x07, 0x08, 0x07, 0x08,
    0x05, 0x07, 0x05, 0x07, 0x07, 0x08, 0x07, 0x08, 0x05, 0x07, 0x05, 0x07, 0x07, 0x08, 0x07, 0x08,
    0x03, 0x06, 0x04, 0x07, 0x06, 0x08, 0x07, 0x08, 0x04, 0x07, 0x05, 0x07, 0x07, 0x08, 0x07, 0x08,
    0x03, 0x06, 0x04, 0x07, 0x06, 0x08, 0x07, 0x08, 0x04, 0x07, 0x05, 0x07, 0x07, 0x08, 0x07, 0x08,
    0x04, 0x07, 0x05, 0x07, 0x07, 0x08, 0x07, 0x08, 0x05, 0x07, 0x05, 0x07, 0x07, 0x08, 0x07, 0x08,
    0x04, 0x07, 0x05, 0x07, 0x07, 0x08, 0x07, 0x08, 0x05, 0x07, 0x05, 0x07, 0x07, 0x08, 0x07, 0x08,
    0x06, 0x08, 0x07, 0x08, 0x08, 0x08, 0x08, 0x08, 0x07, 0x08, 0x07, 0x08, 0x08, 0x08, 0x08, 0x08,
    0x06, 0x08, 0x07, 0x08, 0x08, 0x08, 0x08, 0x08, 0x07, 0x08, 0x07, 0x08, 0x08, 0x08, 0x08, 0x08,
    0x07, 0x08, 0x07, 0x08, 0x08, 0x08, 0x08, 0x08, 0x07, 0x08, 0x07, 0x08, 0x08, 0x08, 0x08, 0x08,
    0x07, 0x08, 0x07, 0x08, 0x08, 0x08, 0x08, 0x08, 0x07, 0x08, 0x07, 0x08, 0x08, 0x08, 0x08, 0x08,
    0x04, 0x07, 0x05, 0x07, 0x07, 0x08, 0x07, 0x08, 0x05, 0x07, 0x05, 0x07, 0x07, 0x08, 0x07, 0x08,
    0x04, 0x07, 0x05, 0x07, 0x07, 0x08, 0x07, 0x08, 0x05, 0x07, 0x05, 0x07, 0x07, 0x08, 0x07, 0x08,
    0x05, 0x07, 0x05, 0x07, 0x07, 0x08, 0x07, 0x08, 0x05, 0x07, 0x05, 0x07, 0x07, 0x08, 0x07, 0x08,
    0x05, 0x07, 0x05, 0x07, 0x07, 0x08, 0x07, 0x08, 0x05, 0x07, 0x05, 0x07, 0x07, 0x08, 0x07, 0x08,
    0x07, 0x08, 0x07, 0x08, 0x08, 0x08, 0x08, 0x08, 0x07, 0x08, 0x07, 0x08, 0x08, 0x08, 0x08, 0x08,
    0x07, 0x08, 0x07, 0x08, 0x08, 0x08, 0x08, 0x08, 0x07, 0x08, 0x07, 0x08, 0x08, 0x08, 0x08, 0x08,
    0x07, 0x08, 0x07, 0x08, 0x08, 0x08, 0x08, 0x08, 0x07, 0x08, 0x07, 0x08, 0x08, 0x08, 0x08, 0x08,
    0x07, 0x08, 0x07, 0x08, 0x08, 0x08, 0x08, 0x08, 0x07, 0x08, 0x07, 0x08, 0x08, 0x08, 0x08, 0x08,
];

/// Sign-coding context, indexed by the sign/significance pattern of the four direct neighbours.
pub const LUT_CTXNO_SC: [u8; 256] = [
    0x09, 0x09, 0x0a, 0x0a, 0x09, 0x09, 0x0a, 0x0a, 0x0c, 0x0c, 0x0d, 0x0b, 0x0c, 0x0c, 0x0d, 0x0b,
    0x09, 0x09, 0x0a, 0x0a, 0x09, 0x09, 0x0a, 0x0a, 0x0c, 0x0c, 0x0b, 0x0d, 0x0c, 0x0c, 0x0b, 0x0d,
    0x0c, 0x0c, 0x0d, 0x0d, 0x0c, 0x0c, 0x0b, 0x0b, 0x0c, 0x09, 0x0d, 0x0a, 0x09, 0x0c, 0x0a, 0x0b,
    0x0c, 0x0c, 0x0b, 0x0b, 0x0c, 0x0c, 0x0d, 0x0d, 0x0c, 0x09, 0x0b, 0x0a, 0x09, 0x0c, 0x0a, 0x0d,
    0x09, 0x09, 0x0a, 0x0a, 0x09, 0x09, 0x0a, 0x0a, 0x0c, 0x0c, 0x0d, 0x0b, 0x0c, 0x0c, 0x0d, 0x0b,
    0x09, 0x09, 0x0a, 0x0a, 0x09, 0x09, 0x0a, 0x0a, 0x0c, 0x0c, 0x0b, 0x0d, 0x0c, 0x0c, 0x0b, 0x0d,
    0x0c, 0x0c, 0x0d, 0x0d, 0x0c, 0x0c, 0x0b, 0x0b, 0x0c, 0x09, 0x0d, 0x0a, 0x09, 0x0c, 0x0a, 0x0b,
    0x0c, 0x0c, 0x0b, 0x0b, 0x0c, 0x0c, 0x0d, 0x0d, 0x0c, 0x09, 0x0b, 0x0a, 0x09, 0x0c, 0x0a, 0x0d,
    0x0a, 0x0a, 0x0a, 0x0a, 0x0a, 0x0a, 0x0a, 0x0a, 0x0d, 0x0b, 0x0d, 0x0b, 0x0d, 0x0b, 0x0d, 0x0b,
    0x0a, 0x0a, 0x09, 0x09, 0x0a, 0x0a, 0x09, 0x09, 0x0d, 0x0b, 0x0c, 0x0c, 0x0d, 0x0b, 0x0c, 0x0c,
    0x0d, 0x0d, 0x0d, 0x0d, 0x0b, 0x0b, 0x0b, 0x0b, 0x0d, 0x0a, 0x0d, 0x0a, 0x0a, 0x0b, 0x0a, 0x0b,
    0x0d, 0x0d, 0x0c, 0x0c, 0x0b, 0x0b, 0x0c, 0x0c, 0x0d, 0x0a, 0x0c, 0x09, 0x0a, 0x0b, 0x09, 0x0c,
    0x0a, 0x0a, 0x09, 0x09, 0x0a, 0x0a, 0x09, 0x09, 0x0b, 0x0d, 0x0c, 0x0c, 0x0b, 0x0d, 0x0c, 0x0c,
    0x0a, 0x0a, 0x0a, 0x0a, 0x0a, 0x0a, 0x0a, 0x0a, 0x0b, 0x0d, 0x0b, 0x0d, 0x0b, 0x0d, 0x0b, 0x0d,
    0x0b, 0x0b, 0x0c, 0x0c, 0x0d, 0x0d, 0x0c, 0x0c, 0x0b, 0x0a, 0x0c, 0x09, 0x0a, 0x0d, 0x09, 0x0c,
    0x0b, 0x0b, 0x0b, 0x0b, 0x0d, 0x0d, 0x0d, 0x0d, 0x0b, 0x0a, 0x0b, 0x0a, 0x0a, 0x0d, 0x0a, 0x0d,
];

/// Sign prediction bit, indexed by the sign/significance pattern of the four direct neighbours.
pub const LUT_SPB: [u8; 256] = [
    0x0, 0x0, 0x0, 0x0, 0x0, 0x0, 0x0, 0x0, 0x0, 0x1, 0x0, 0x1, 0x0, 0x1, 0x0, 0x1,
    0x0, 0x0, 0x1, 0x1, 0x0, 0x0, 0x1, 0x1, 0x0, 0x1, 0x0, 0x1, 0x0, 0x1, 0x0, 0x1,
    0x0, 0x0, 0x0, 0x0, 0x1, 0x1, 0x1, 0x1, 0x0, 0x0, 0x0, 0x0, 0x0, 0x1, 0x0, 0x1,
    0x0, 0x0, 0x0, 0x0, 0x1, 0x1, 0x1, 0x1, 0x0, 0x0, 0x0, 0x1, 0x0, 0x1, 0x1, 0x1,
    0x0, 0x0, 0x0, 0x0, 0x0, 0x0, 0x0, 0x0, 0x0, 0x1, 0x0, 0x1, 0x0, 0x1, 0x0, 0x1,
    0x0, 0x0, 0x1, 0x1, 0x0, 0x0, 0x1, 0x1, 0x0, 0x1, 0x0, 0x1, 0x0, 0x1, 0x0, 0x1,
    0x0, 0x0, 0x0, 0x0, 0x1, 0x1, 0x1, 0x1, 0x0, 0x0, 0x0, 0x0, 0x0, 0x1, 0x0, 0x1,
    0x0, 0x0, 0x0, 0x0, 0x1, 0x1, 0x1, 0x1, 0x0, 0x0, 0x0, 0x1, 0x0, 0x1, 0x1, 0x1,
    0x0, 0x0, 0x0, 0x0, 0x0, 0x0, 0x0, 0x0, 0x0, 0x1, 0x0, 0x1, 0x0, 0x1, 0x0, 0x1,
    0x0, 0x0, 0x0, 0x0, 0x0, 0x0, 0x0, 0x0, 0x0, 0x1, 0x0, 0x1, 0x0, 0x1, 0x0, 0x1,
    0x0, 0x0, 0x0, 0x0, 0x1, 0x1, 0x1, 0x1, 0x0, 0x0, 0x0, 0x0, 0x0, 0x1, 0x0, 0x1,
    0x0, 0x0, 0x0, 0x0, 0x1, 0x1, 0x1, 0x1, 0x0, 0x0, 0x0, 0x0, 0x0, 0x1, 0x0, 0x1,
    0x1, 0x1, 0x0, 0x0, 0x1, 0x1, 0x0, 0x0, 0x0, 0x1, 0x0, 0x1, 0x0, 0x1, 0x0, 0x1,
    0x1, 0x1, 0x1, 0x1, 0x1, 0x1, 0x1, 0x1, 0x0, 0x1, 0x0, 0x1, 0x0, 0x1, 0x0, 0x1,
    0x0, 0x0, 0x0, 0x0, 0x1, 0x1, 0x1, 0x1, 0x0, 0x1, 0x0, 0x0, 0x1, 0x1, 0x0, 0x1,
    0x0, 0x0, 0x0, 0x0, 0x1, 0x1, 0x1, 0x1, 0x0, 0x1, 0x0, 0x1, 0x1, 0x1, 0x1, 0x1,
];

/// Distortion decrease of a significance decision, indexed by the bits below the decided one.
pub const LUT_NMSEDEC_SIG: [i16; 128] = [
    0x0000, 0x0000, 0x0000, 0x0000, 0x0000, 0x0000, 0x0000, 0x0000,
    0x0000, 0x0000, 0x0000, 0x0000, 0x0000, 0x0000, 0x0000, 0x0000,
    0x0000, 0x0000, 0x0000, 0x0000, 0x0000, 0x0000, 0x0000, 0x0000,
    0x0000, 0x0000, 0x0000, 0x0000, 0x0000, 0x0000, 0x0000, 0x0000,
    0x0000, 0x0000, 0x0000, 0x0000, 0x0000, 0x0000, 0x0000, 0x0000,
    0x0000, 0x0000, 0x0000, 0x0000, 0x0000, 0x0000, 0x0000, 0x0000,
    0x0000, 0x0180, 0x0300, 0x0480, 0x0600, 0x0780, 0x0900, 0x0a80,
    0x0c00, 0x0d80, 0x0f00, 0x1080, 0x1200, 0x1380, 0x1500, 0x1680,
    0x1800, 0x1980, 0x1b00, 0x1c80, 0x1e00, 0x1f80, 0x2100, 0x2280,
    0x2400, 0x2580, 0x2700, 0x2880, 0x2a00, 0x2b80, 0x2d00, 0x2e80,
    0x3000, 0x3180, 0x3300, 0x3480, 0x3600, 0x3780, 0x3900, 0x3a80,
    0x3c00, 0x3d80, 0x3f00, 0x4080, 0x4200, 0x4380, 0x4500, 0x4680,
    0x4800, 0x4980, 0x4b00, 0x4c80, 0x4e00, 0x4f80, 0x5100, 0x5280,
    0x5400, 0x5580, 0x5700, 0x5880, 0x5a00, 0x5b80, 0x5d00, 0x5e80,
    0x6000, 0x6180, 0x6300, 0x6480, 0x6600, 0x6780, 0x6900, 0x6a80,
    0x6c00, 0x6d80, 0x6f00, 0x7080, 0x7200, 0x7380, 0x7500, 0x7680,
];

/// Distortion decrease of a significance decision at bit-plane 0.
pub const LUT_NMSEDEC_SIG0: [i16; 128] = [
    0x0000, 0x0000, 0x0000, 0x0000, 0x0000, 0x0000, 0x0080, 0x0080,
    0x0080, 0x0080, 0x0100, 0x0100, 0x0100, 0x0180, 0x0180, 0x0200,
    0x0200, 0x0280, 0x0280, 0x0300, 0x0300, 0x0380, 0x0400, 0x0400,
    0x0480, 0x0500, 0x0580, 0x0580, 0x0600, 0x0680, 0x0700, 0x0780,
    0x0800, 0x0880, 0x0900, 0x0980, 0x0a00, 0x0a80, 0x0b80, 0x0c00,
    0x0c80, 0x0d00, 0x0e00, 0x0e80, 0x0f00, 0x1000, 0x1080, 0x1180,
    0x1200, 0x1300, 0x1380, 0x1480, 0x1500, 0x1600, 0x1700, 0x1780,
    0x1880, 0x1980, 0x1a80, 0x1b00, 0x1c00, 0x1d00, 0x1e00, 0x1f00,
    0x2000, 0x2100, 0x2200, 0x2300, 0x2400, 0x2500, 0x2680, 0x2780,
    0x2880, 0x2980, 0x2b00, 0x2c00, 0x2d00, 0x2e80, 0x2f80, 0x3100,
    0x3200, 0x3380, 0x3480, 0x3600, 0x3700, 0x3880, 0x3a00, 0x3b00,
    0x3c80, 0x3e00, 0x3f80, 0x4080, 0x4200, 0x4380, 0x4500, 0x4680,
    0x4800, 0x4980, 0x4b00, 0x4c80, 0x4e00, 0x4f80, 0x5180, 0x5300,
    0x5480, 0x5600, 0x5800, 0x5980, 0x5b00, 0x5d00, 0x5e80, 0x6080,
    0x6200, 0x6400, 0x6580, 0x6780, 0x6900, 0x6b00, 0x6d00, 0x6e80,
    0x7080, 0x7280, 0x7480, 0x7600, 0x7800, 0x7a00, 0x7c00, 0x7e00,
];

/// Distortion decrease of a refinement decision, indexed by the bits below the refined one.
pub const LUT_NMSEDEC_REF: [i16; 128] = [
    0x1800, 0x1780, 0x1700, 0x1680, 0x1600, 0x1580, 0x1500, 0x1480,
    0x1400, 0x1380, 0x1300, 0x1280, 0x1200, 0x1180, 0x1100, 0x1080,
    0x1000, 0x0f80, 0x0f00, 0x0e80, 0x0e00, 0x0d80, 0x0d00, 0x0c80,
    0x0c00, 0x0b80, 0x0b00, 0x0a80, 0x0a00, 0x0980, 0x0900, 0x0880,
    0x0800, 0x0780, 0x0700, 0x0680, 0x0600, 0x0580, 0x0500, 0x0480,
    0x0400, 0x0380, 0x0300, 0x0280, 0x0200, 0x0180, 0x0100, 0x0080,
    0x0000, 0x0000, 0x0000, 0x0000, 0x0000, 0x0000, 0x0000, 0x0000,
    0x0000, 0x0000, 0x0000, 0x0000, 0x0000, 0x0000, 0x0000, 0x0000,
    0x0000, 0x0000, 0x0000, 0x0000, 0x0000, 0x0000, 0x0000, 0x0000,
    0x0000, 0x0000, 0x0000, 0x0000, 0x0000, 0x0000, 0x0000, 0x0000,
    0x0000, 0x0080, 0x0100, 0x0180, 0x0200, 0x0280, 0x0300, 0x0380,
    0x0400, 0x0480, 0x0500, 0x0580, 0x0600, 0x0680, 0x0700, 0x0780,
    0x0800, 0x0880, 0x0900, 0x0980, 0x0a00, 0x0a80, 0x0b00, 0x0b80,
    0x0c00, 0x0c80, 0x0d00, 0x0d80, 0x0e00, 0x0e80, 0x0f00, 0x0f80,
    0x1000, 0x1080, 0x1100, 0x1180, 0x1200, 0x1280, 0x1300, 0x1380,
    0x1400, 0x1480, 0x1500, 0x1580, 0x1600, 0x1680, 0x1700, 0x1780,
];

/// Distortion decrease of a refinement decision at bit-plane 0.
pub const LUT_NMSEDEC_REF0: [i16; 128] = [
    0x2000, 0x1f00, 0x1e00, 0x1d00, 0x1c00, 0x1b00, 0x1a80, 0x1980,
    0x1880, 0x1780, 0x1700, 0x1600, 0x1500, 0x1480, 0x1380, 0x1300,
    0x1200, 0x1180, 0x1080, 0x1000, 0x0f00, 0x0e80, 0x0e00, 0x0d00,
    0x0c80, 0x0c00, 0x0b80, 0x0a80, 0x0a00, 0x0980, 0x0900, 0x0880,
    0x0800, 0x0780, 0x0700, 0x0680, 0x0600, 0x0580, 0x0580, 0x0500,
    0x0480, 0x0400, 0x0400, 0x0380, 0x0300, 0x0300, 0x0280, 0x0280,
    0x0200, 0x0200, 0x0180, 0x0180, 0x0100, 0x0100, 0x0100, 0x0080,
    0x0080, 0x0080, 0x0080, 0x0000, 0x0000, 0x0000, 0x0000, 0x0000,
    0x0000, 0x0000, 0x0000, 0x0000, 0x0000, 0x0000, 0x0080, 0x0080,
    0x0080, 0x0080, 0x0100, 0x0100, 0x0100, 0x0180, 0x0180, 0x0200,
    0x0200, 0x0280, 0x0280, 0x0300, 0x0300, 0x0380, 0x0400, 0x0400,
    0x0480, 0x0500, 0x0580, 0x0580, 0x0600, 0x0680, 0x0700, 0x0780,
    0x0800, 0x0880, 0x0900, 0x0980, 0x0a00, 0x0a80, 0x0b80, 0x0c00,
    0x0c80, 0x0d00, 0x0e00, 0x0e80, 0x0f00, 0x1000, 0x1080, 0x1180,
    0x1200, 0x1300, 0x1380, 0x1480, 0x1500, 0x1600, 0x1700, 0x1780,
    0x1880, 0x1980, 0x1a80, 0x1b00, 0x1c00, 0x1d00, 0x1e00, 0x1f00,
];

} // verus!
