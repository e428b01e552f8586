//! Packet iteration: the order in which the packets of a tile are visited, for each of the
//! five progression orders, with a shared record of the packets already visited.
use vstd::prelude::*;
use crate::j2k::params::Poc;
use crate::types::ProgressionOrder;
use crate::bits::lemma_i64_shr_bounds;

verus! {

/// Resolution-level information of a component.
#[derive(Debug, Clone)]
pub struct PiResolution {
    /// Precinct width exponent (log2).
    pub pdx: u32,
    /// Precinct height exponent (log2).
    pub pdy: u32,
    /// Number of precincts in width.
    pub pw: u32,
    /// Number of precincts in height.
    pub ph: u32,
}

impl Default for PiResolution {
    fn default() -> (r: Self)
        ensures
            r.pdx == 0 && r.pdy == 0 && r.pw == 0 && r.ph == 0,
    {
        PiResolution { pdx: 0, pdy: 0, pw: 0, ph: 0 }
    }
}

/// Component information of the iterator.
#[derive(Debug, Clone)]
pub struct PiComp {
    /// Component sub-sampling factor X.
    pub dx: u32,
    /// Component sub-sampling factor Y.
    pub dy: u32,
    /// Number of resolution levels.
    pub numresolutions: u32,
    /// Per-resolution information.
    pub resolutions: Vec<PiResolution>,
}

impl Default for PiComp {
    fn default() -> (r: Self)
        ensures
            r.dx == 0 && r.dy == 0 && r.numresolutions == 0 && r.resolutions@.len() == 0,
    {
        PiComp { dx: 0, dy: 0, numresolutions: 0, resolutions: Vec::new() }
    }
}

/// Packet iterator state: the current packet position and the bounds of iteration.
#[derive(Debug, Clone)]
pub struct PiIterator {
    /// Tile-part generation enabled.
    pub tp_on: bool,
    /// Stride for the layer dimension in the visited array.
    pub step_l: u32,
    /// Stride for the resolution dimension.
    pub step_r: u32,
    /// Stride for the component dimension.
    pub step_c: u32,
    /// Stride for the precinct dimension.
    pub step_p: u32,
    /// Current component index.
    pub compno: u32,
    /// Current resolution index.
    pub resno: u32,
    /// Current precinct index.
    pub precno: u32,
    /// Current layer index.
    pub layno: u32,
    /// Whether the next call is the first one.
    pub first: bool,
    /// Progression order change parameters (bounds of iteration).
    pub poc: Poc,
    /// Number of components.
    pub numcomps: u32,
    /// Component information.
    pub comps: Vec<PiComp>,
    /// Tile boundaries.
    pub tx0: u32,
    pub ty0: u32,
    pub tx1: u32,
    pub ty1: u32,
    /// Current spatial position (position-driven orders).
    pub x: u32,
    pub y: u32,
    /// Precinct spacing in image coordinates (position-driven orders).
    pub dx: u32,
    pub dy: u32,
}

/// A set of packet iterators of a tile, with the shared record of visited packets.
pub struct PacketIterators {
    /// Per-POC iterators.
    pub iterators: Vec<PiIterator>,
    /// Shared visited array, indexed by `layno * step_l + resno * step_r + compno * step_c
    /// + precno * step_p`; a nonzero entry marks a visited packet.
    pub visited: Vec<i16>,
}

/// A resolution level whose precinct arithmetic stays within 32 bits.
pub open spec fn res_wf(res: PiResolution, numresolutions: u32) -> bool {
    &&& res.pdx + numresolutions <= u32::MAX
    &&& res.pdy + numresolutions <= u32::MAX
    &&& res.pw * res.ph <= u32::MAX
}

/// A component with at least as many resolution records as resolution levels, at most 64
/// levels, and precinct arithmetic within 32 bits.
pub open spec fn comp_wf(c: PiComp) -> bool {
    &&& c.numresolutions <= 64
    &&& c.resolutions@.len() >= c.numresolutions
    &&& forall|r: int| 0 <= r < c.numresolutions ==> #[trigger] res_wf(c.resolutions@[r], c.numresolutions)
}

/// Well-formed iterator: valid components, tile bounds that are not negative, cursor
/// indices below the largest value, and a nonzero spacing once a position-driven
/// iteration has started.
pub open spec fn pi_wf(pi: PiIterator) -> bool {
    &&& forall|c: int| 0 <= c < pi.comps@.len() ==> #[trigger] comp_wf(pi.comps@[c])
    &&& pi.poc.tx1 >= 0
    &&& pi.poc.ty1 >= 0
    &&& pi.precno < u32::MAX
    &&& pi.layno < u32::MAX
    &&& (!pi.first && (pi.poc.prg == ProgressionOrder::Rpcl || pi.poc.prg == ProgressionOrder::Pcrl)) ==> (
    pi.dx > 0 && pi.dy > 0)
}

/// The fields that iteration never changes.
pub open spec fn same_config(a: PiIterator, b: PiIterator) -> bool {
    &&& a.tp_on == b.tp_on
    &&& a.step_l == b.step_l
    &&& a.step_r == b.step_r
    &&& a.step_c == b.step_c
    &&& a.step_p == b.step_p
    &&& a.poc == b.poc
    &&& a.numcomps == b.numcomps
    &&& a.comps == b.comps
    &&& a.tx0 == b.tx0
    &&& a.ty0 == b.ty0
    &&& a.tx1 == b.tx1
    &&& a.ty1 == b.ty1
}

/// Index in the visited array of a packet.
pub open spec fn packet_index(pi: PiIterator, l: int, r: int, c: int, p: int) -> int {
    l * pi.step_l + r * pi.step_r + c * pi.step_c + p * pi.step_p
}

/// Index in the visited array of the iterator's current packet.
pub open spec fn cur_index(pi: PiIterator) -> int {
    packet_index(pi, pi.layno as int, pi.resno as int, pi.compno as int, pi.precno as int)
}

/// The number of precincts that the current resolution level offers to the iterator.
pub open spec fn precno_bound(pi: PiIterator) -> int {
    let res = pi.comps@[pi.compno as int].resolutions@[pi.resno as int];
    if pi.tp_on && (pi.poc.prg == ProgressionOrder::Lrcp || pi.poc.prg == ProgressionOrder::Rlcp) {
        pi.poc.precno1 as int
    } else {
        res.pw * res.ph
    }
}

/// The current packet lies within the iteration bounds.
pub open spec fn packet_in_bounds(pi: PiIterator) -> bool {
    &&& pi.layno < pi.poc.layno1
    &&& pi.resno < pi.poc.resno1
    &&& pi.compno < pi.poc.compno1
    &&& pi.compno < pi.comps@.len()
    &&& pi.resno < pi.comps@[pi.compno as int].numresolutions
    &&& pi.precno < precno_bound(pi)
}

/// The current packet was not visited before and is marked visited now; nothing else of
/// the visited array changed.
pub open spec fn packet_taken(pi: PiIterator, before: Seq<i16>, after: Seq<i16>) -> bool {
    &&& 0 <= cur_index(pi) < before.len()
    &&& before[cur_index(pi)] == 0
    &&& after == before.update(cur_index(pi), 1)
}

/// What one step of iteration does: the configuration stays, and either a packet that was
/// not visited is returned and marked, or nothing is marked.
pub open spec fn step_done(pi0: PiIterator, pi1: PiIterator, inc0: Seq<i16>, inc1: Seq<i16>, r: bool) -> bool {
    &&& same_config(pi1, pi0)
    &&& pi_wf(pi1)
    &&& inc1.len() == inc0.len()
    &&& r ==> packet_taken(pi1, inc0, inc1) && packet_in_bounds(pi1)
    &&& !r ==> inc1 == inc0
}

/// Number of precincts of resolution `r` of component `c` that the layer- and
/// resolution-major orders go through.
pub open spec fn precinct_end(pi: PiIterator, c: int, r: int) -> int {
    let res = pi.comps@[c].resolutions@[r];
    if pi.tp_on {
        pi.poc.precno1 as int
    } else {
        res.pw * res.ph
    }
}

/// Packet `(l, r, c, p)` lies below the iteration's upper bounds and within the
/// component's resolutions and precincts.
pub open spec fn in_range(pi: PiIterator, l: int, r: int, c: int, p: int) -> bool {
    &&& 0 <= l < pi.poc.layno1
    &&& 0 <= r < pi.poc.resno1
    &&& 0 <= c < pi.poc.compno1
    &&& 0 <= p
    &&& c < pi.comps@.len()
    &&& r < pi.comps@[c].numresolutions
    &&& p < precinct_end(pi, c, r)
}

/// Packet `(l, r, c, p)` is one that the iteration goes through: in range and at or
/// above the iteration's lower bounds.
pub open spec fn in_progression(pi: PiIterator, l: int, r: int, c: int, p: int) -> bool {
    &&& in_range(pi, l, r, c, p)
    &&& pi.poc.layno0 <= l
    &&& pi.poc.resno0 <= r
    &&& pi.poc.compno0 <= c
    &&& pi.poc.precno0 <= p
}

/// Lexicographic order on quadruples.
pub open spec fn lex_lt(a0: int, a1: int, a2: int, a3: int, b0: int, b1: int, b2: int, b3: int) -> bool {
    ||| a0 < b0
    ||| a0 == b0 && a1 < b1
    ||| a0 == b0 && a1 == b1 && a2 < b2
    ||| a0 == b0 && a1 == b1 && a2 == b2 && a3 < b3
}

/// Packet `(l, r, c, p)` comes before packet `(kl, kr, kc, kp)` in the iterator's order:
/// resolution first for RLCP, layer first otherwise.
pub open spec fn order_lt(pi: PiIterator, l: int, r: int, c: int, p: int, kl: int, kr: int, kc: int, kp: int) -> bool {
    if pi.poc.prg == ProgressionOrder::Rlcp {
        lex_lt(r, l, c, p, kr, kl, kc, kp)
    } else {
        lex_lt(l, r, c, p, kl, kr, kc, kp)
    }
}

/// The visited record marks packet `(l, r, c, p)`.
pub open spec fn is_visited(pi: PiIterator, v: Seq<i16>, l: int, r: int, c: int, p: int) -> bool {
    let i = packet_index(pi, l, r, c, p);
    0 <= i < v.len() && v[i] != 0
}

/// Every packet of the progression before `(kl, kr, kc, kp)` in the iterator's order is
/// marked.
pub open spec fn done_before(pi: PiIterator, v: Seq<i16>, kl: int, kr: int, kc: int, kp: int) -> bool {
    forall|l: int, r: int, c: int, p: int|
        #![trigger in_progression(pi, l, r, c, p)]
        in_progression(pi, l, r, c, p) && order_lt(pi, l, r, c, p, kl, kr, kc, kp) ==> is_visited(pi, v, l, r, c, p)
}

/// The iterator can go on from where it stands: either it has not started, or its current
/// packet is in range and every packet of the progression up to it is marked.
pub open spec fn resumable(pi: PiIterator, v: Seq<i16>) -> bool {
    ||| pi.first
    ||| packet_in_bounds(pi) && done_before(
        pi,
        v,
        pi.layno as int,
        pi.resno as int,
        pi.compno as int,
        pi.precno + 1,
    )
}

/// Every packet of the progression is marked.
pub open spec fn all_visited(pi: PiIterator, v: Seq<i16>) -> bool {
    forall|l: int, r: int, c: int, p: int|
        #![trigger in_progression(pi, l, r, c, p)]
        in_progression(pi, l, r, c, p) ==> is_visited(pi, v, l, r, c, p)
}

/// Some packet in range has an index beyond the visited record.
pub open spec fn index_overflow(pi: PiIterator, v: Seq<i16>) -> bool {
    exists|l: int, r: int, c: int, p: int|
        #![trigger in_range(pi, l, r, c, p)]
        in_range(pi, l, r, c, p) && packet_index(pi, l, r, c, p) >= v.len()
}

/// What a step of the layer- or resolution-major iteration gives, from a state it can
/// go on from: a returned packet leaves a state it can go on from; when none is returned,
/// every packet of the progression is marked, unless the record is too short for them.
pub open spec fn step_complete(pi0: PiIterator, pi1: PiIterator, v0: Seq<i16>, v1: Seq<i16>, r: bool) -> bool {
    resumable(pi0, v0) ==> {
        &&& r ==> resumable(pi1, v1)
        &&& !r ==> all_visited(pi1, v1) || index_overflow(pi1, v1)
    }
}

/// Position `v` is one that a position-driven iteration visits along an axis from
/// `start` (included) to `end` (excluded) in steps to the next multiple of `d`.
pub open spec fn scanned(v: int, start: int, end: int, d: int) -> bool {
    start <= v < end && (v == start || v % d == 0)
}

/// Precinct that position `(x, y)` gives at resolution `r` of component `c`.
pub open spec fn pos_precinct(pi: PiIterator, r: int, c: int, x: int, y: int) -> Option<u32> {
    let comp = pi.comps@[c];
    precinct_at(comp, comp.resolutions@[r], r as u32, x as u32, y as u32, pi.tx0, pi.ty0)
}

/// The position steps along x and y with which a position-driven iteration scans component
/// `c`: the iterator's spacing, or, in component-major order, the smallest precinct size
/// of the component's resolutions in the iteration's bounds.
pub open spec fn spacing_of(pi: PiIterator, c: int) -> (u32, u32) {
    if pi.poc.prg == ProgressionOrder::Cprl {
        spacing_over(pi, pi.poc.resno0 as int, pi.poc.resno1 as int, c, c + 1, (0u32, 0u32))
    } else {
        (pi.dx, pi.dy)
    }
}

/// Packet `(l, r, c)` at position `(x, y)` is one that a position-driven iteration goes
/// through: within the iteration's bounds, at a position scanned with a nonzero spacing,
/// where the position gives a precinct of the resolution.
pub open spec fn pos_packet(pi: PiIterator, l: int, r: int, c: int, x: int, y: int) -> bool {
    &&& pi.poc.layno0 <= l < pi.poc.layno1
    &&& pi.poc.resno0 <= r < pi.poc.resno1
    &&& pi.poc.compno0 <= c < pi.poc.compno1
    &&& c < pi.comps@.len()
    &&& r < pi.comps@[c].numresolutions
    &&& spacing_of(pi, c).0 > 0 && spacing_of(pi, c).1 > 0
    &&& scanned(y, pi.poc.ty0 as u32 as int, pi.poc.ty1 as u32 as int, spacing_of(pi, c).1 as int)
    &&& scanned(x, pi.poc.tx0 as u32 as int, pi.poc.tx1 as u32 as int, spacing_of(pi, c).0 as int)
    &&& pos_precinct(pi, r, c, x, y) matches Some(p) && p < pi.comps@[c].resolutions@[r].pw
        * pi.comps@[c].resolutions@[r].ph
}

/// Sort key of a packet in resolution-position-component-layer order.
pub open spec fn rpcl_lt(l: int, r: int, c: int, x: int, y: int, kl: int, kr: int, kc: int, kx: int, ky: int) -> bool {
    ||| r < kr
    ||| r == kr && lex_lt(y, x, c, l, ky, kx, kc, kl)
}

/// Sort key of a packet in position-component-resolution-layer order.
pub open spec fn pcrl_lt(l: int, r: int, c: int, x: int, y: int, kl: int, kr: int, kc: int, kx: int, ky: int) -> bool {
    ||| y < ky
    ||| y == ky && lex_lt(x, c, r, l, kx, kc, kr, kl)
}

/// Sort key of a packet in component-position-resolution-layer order.
pub open spec fn cprl_lt(l: int, r: int, c: int, x: int, y: int, kl: int, kr: int, kc: int, kx: int, ky: int) -> bool {
    ||| c < kc
    ||| c == kc && lex_lt(y, x, r, l, ky, kx, kr, kl)
}

/// Packet `(l, r, c)` at `(x, y)` comes before key `(kl, kr, kc, kx, ky)` in the iterator's
/// position-driven order.
pub open spec fn pos_lt(pi: PiIterator, l: int, r: int, c: int, x: int, y: int, kl: int, kr: int, kc: int, kx: int, ky: int) -> bool {
    if pi.poc.prg == ProgressionOrder::Pcrl {
        pcrl_lt(l, r, c, x, y, kl, kr, kc, kx, ky)
    } else if pi.poc.prg == ProgressionOrder::Cprl {
        cprl_lt(l, r, c, x, y, kl, kr, kc, kx, ky)
    } else {
        rpcl_lt(l, r, c, x, y, kl, kr, kc, kx, ky)
    }
}

/// Every packet that the position-driven iteration goes through before key
/// `(kl, kr, kc, kx, ky)` in its order is marked.
pub open spec fn pos_done(pi: PiIterator, v: Seq<i16>, kl: int, kr: int, kc: int, kx: int, ky: int) -> bool {
    forall|l: int, r: int, c: int, x: int, y: int|
        #![trigger pos_packet(pi, l, r, c, x, y)]
        pos_packet(pi, l, r, c, x, y) && pos_lt(pi, l, r, c, x, y, kl, kr, kc, kx, ky) ==> is_visited(
            pi,
            v,
            l,
            r,
            c,
            pos_precinct(pi, r, c, x, y)->Some_0 as int,
        )
}

/// Every packet that a position-driven iteration goes through is marked.
pub open spec fn pos_all_visited(pi: PiIterator, v: Seq<i16>) -> bool {
    forall|l: int, r: int, c: int, x: int, y: int|
        #![trigger pos_packet(pi, l, r, c, x, y)]
        pos_packet(pi, l, r, c, x, y) ==> is_visited(pi, v, l, r, c, pos_precinct(pi, r, c, x, y)->Some_0 as int)
}

/// Some packet within the bounds, of a precinct of its resolution, has an index beyond
/// the visited record.
pub open spec fn pos_index_overflow(pi: PiIterator, v: Seq<i16>) -> bool {
    exists|l: int, r: int, c: int, p: int|
        #![trigger packet_index(pi, l, r, c, p)]
        0 <= l < pi.poc.layno1 && 0 <= r && 0 <= c < pi.comps@.len() && r < pi.comps@[c].numresolutions && 0 <= p
            < pi.comps@[c].resolutions@[r].pw * pi.comps@[c].resolutions@[r].ph && packet_index(pi, l, r, c, p)
            >= v.len()
}

/// A position-driven iterator can go on from where it stands: it has not started, or it stands at a
/// scanned position on a packet in range, with every packet before it marked.
pub open spec fn pos_resumable(pi: PiIterator, v: Seq<i16>) -> bool {
    ||| pi.first
    ||| {
        &&& spacing_of(pi, pi.compno as int).0 > 0 && spacing_of(pi, pi.compno as int).1 > 0
        &&& pi.resno < pi.poc.resno1
        &&& pi.compno < pi.poc.compno1
        &&& scanned(pi.y as int, pi.poc.ty0 as u32 as int, pi.poc.ty1 as u32 as int, spacing_of(pi, pi.compno as int).1 as int)
        &&& scanned(pi.x as int, pi.poc.tx0 as u32 as int, pi.poc.tx1 as u32 as int, spacing_of(pi, pi.compno as int).0 as int)
        &&& pos_done(pi, v, pi.layno + 1, pi.resno as int, pi.compno as int, pi.x as int, pi.y as int)
    }
}

/// What a step of a position-driven iteration gives, from a state it can go on from: a returned
/// packet leaves a state it can go on from; when none is returned, every packet of the
/// iteration is marked, unless the record is too short for the packets in range or the
/// components give no precinct spacing (the iterator is then left unstarted).
pub open spec fn pos_step_complete(pi0: PiIterator, pi1: PiIterator, v0: Seq<i16>, v1: Seq<i16>, r: bool) -> bool {
    pos_resumable(pi0, v0) ==> {
        &&& r ==> pos_resumable(pi1, v1)
        &&& !r ==> pos_all_visited(pi1, v1) || pos_index_overflow(pi1, v1) || pi1.first
    }
}

/// Between a position and the next one a scan visits lies no scanned position.
proof fn lemma_scan_gap(v: int, z: int, start: int, end: int, d: int)
    requires
        d > 0,
        start <= v,
        v < z < v + (d - v % d),
    ensures
        !scanned(z, start, end, d),
{
    vstd::arithmetic::div_mod::lemma_fundamental_div_mod(v, d);
    vstd::arithmetic::div_mod::lemma_mod_bound(v, d);
    let q = v / d;
    let m = v % d;
    assert(q * d == d * q) by (nonlinear_arith);
    vstd::arithmetic::div_mod::lemma_fundamental_div_mod_converse(z, d, q, m + (z - v));
}

/// The marked prefix of a position-driven iteration extends over a stretch holding no packet of the iteration.
proof fn lemma_pos_skip(
    pi: PiIterator,
    v: Seq<i16>,
    a: (int, int, int, int, int),
    b: (int, int, int, int, int),
)
    requires
        pos_done(pi, v, a.0, a.1, a.2, a.3, a.4),
        forall|l: int, r: int, c: int, x: int, y: int|
            #![trigger pos_packet(pi, l, r, c, x, y)]
            pos_packet(pi, l, r, c, x, y) && pos_lt(pi, l, r, c, x, y, b.0, b.1, b.2, b.3, b.4) ==> pos_lt(
                pi,
                l,
                r,
                c,
                x,
                y,
                a.0,
                a.1,
                a.2,
                a.3,
                a.4,
            ),
    ensures
        pos_done(pi, v, b.0, b.1, b.2, b.3, b.4),
{
}

/// Marking the layers `[s, e)` of the packet at `(r, c, x, y)` extends the marked
/// prefix from layer `s` to `e` there.
proof fn lemma_pos_layers(pi: PiIterator, v: Seq<i16>, r: int, c: int, x: int, y: int, s: int, e: int)
    requires
        pos_done(pi, v, s, r, c, x, y),
        pos_precinct(pi, r, c, x, y) is Some,
        forall|l: int| s <= l < e ==> is_visited(pi, v, l, r, c, pos_precinct(pi, r, c, x, y)->Some_0 as int),
    ensures
        pos_done(pi, v, e, r, c, x, y),
{
}

/// Marks stay marked when one more packet is marked.
proof fn lemma_pos_marked(pi: PiIterator, v0: Seq<i16>, v1: Seq<i16>, i: int, k: (int, int, int, int, int))
    requires
        pos_done(pi, v0, k.0, k.1, k.2, k.3, k.4),
        0 <= i < v0.len(),
        v1 == v0.update(i, 1),
    ensures
        pos_done(pi, v1, k.0, k.1, k.2, k.3, k.4),
{
    assert forall|l: int, r: int, c: int, x: int, y: int|
        pos_packet(pi, l, r, c, x, y) && pos_lt(pi, l, r, c, x, y, k.0, k.1, k.2, k.3, k.4) implies is_visited(
        pi,
        v1,
        l,
        r,
        c,
        pos_precinct(pi, r, c, x, y)->Some_0 as int,
    ) by {
        assert(is_visited(pi, v0, l, r, c, pos_precinct(pi, r, c, x, y)->Some_0 as int));
    }
}

proof fn lemma_spacing_over_comps_config(pi0: PiIterator, pi1: PiIterator, r: int, c: int, c1: int, acc: (u32, u32))
    requires
        pi0.comps == pi1.comps,
    ensures
        spacing_over_comps(pi0, r, c, c1, acc) == spacing_over_comps(pi1, r, c, c1, acc),
    decreases c1 - c,
{
    if c < c1 {
        let next = match res_spacing(pi0, c, r) {
            Some(sp) => (min_set(acc.0, sp.0), min_set(acc.1, sp.1)),
            None => acc,
        };
        assert(res_spacing(pi0, c, r) == res_spacing(pi1, c, r));
        lemma_spacing_over_comps_config(pi0, pi1, r, c + 1, c1, next);
    }
}

proof fn lemma_spacing_over_config(pi0: PiIterator, pi1: PiIterator, r: int, r1: int, c0: int, c1: int, acc: (u32, u32))
    requires
        pi0.comps == pi1.comps,
    ensures
        spacing_over(pi0, r, r1, c0, c1, acc) == spacing_over(pi1, r, r1, c0, c1, acc),
    decreases r1 - r,
{
    if r < r1 {
        lemma_spacing_over_comps_config(pi0, pi1, r, c0, c1, acc);
        lemma_spacing_over_config(pi0, pi1, r + 1, r1, c0, c1, spacing_over_comps(pi0, r, c0, c1, acc));
    }
}

/// The scan spacing of each component depends on the configuration alone (and the
/// iterator's spacing, outside component-major order).
proof fn lemma_spacing_config(pi0: PiIterator, pi1: PiIterator)
    requires
        same_config(pi0, pi1),
        pi0.poc.prg == ProgressionOrder::Cprl || (pi0.dx == pi1.dx && pi0.dy == pi1.dy),
    ensures
        forall|c: int| #[trigger] spacing_of(pi0, c) == spacing_of(pi1, c),
{
    assert forall|c: int| #[trigger] spacing_of(pi0, c) == spacing_of(pi1, c) by {
        if pi0.poc.prg == ProgressionOrder::Cprl {
            lemma_spacing_over_config(pi0, pi1, pi0.poc.resno0 as int, pi0.poc.resno1 as int, c, c + 1, (0u32, 0u32));
        }
    }
}

/// The position-driven predicates read only the iterator's configuration and spacing.
proof fn lemma_pos_config(pi0: PiIterator, pi1: PiIterator, v: Seq<i16>)
    requires
        same_config(pi0, pi1),
        pi0.poc.prg == ProgressionOrder::Cprl || (pi0.dx == pi1.dx && pi0.dy == pi1.dy),
    ensures
        forall|kl: int, kr: int, kc: int, kx: int, ky: int|
            pos_done(pi0, v, kl, kr, kc, kx, ky) ==> #[trigger] pos_done(pi1, v, kl, kr, kc, kx, ky),
        pos_all_visited(pi0, v) ==> pos_all_visited(pi1, v),
        pos_index_overflow(pi0, v) ==> pos_index_overflow(pi1, v),
{
    assert(pi0.poc == pi1.poc && pi0.comps == pi1.comps && pi0.tx0 == pi1.tx0 && pi0.ty0 == pi1.ty0);
    lemma_spacing_config(pi0, pi1);
    assert forall|l: int, r: int, c: int, x: int, y: int| #![trigger pos_packet(pi1, l, r, c, x, y)]
        pos_packet(pi1, l, r, c, x, y) == pos_packet(pi0, l, r, c, x, y) && pos_precinct(pi1, r, c, x, y)
            == pos_precinct(pi0, r, c, x, y) by {}
    assert forall|l: int, r: int, c: int, p: int| #![trigger packet_index(pi1, l, r, c, p)]
        packet_index(pi1, l, r, c, p) == packet_index(pi0, l, r, c, p) && is_visited(pi1, v, l, r, c, p)
            == is_visited(pi0, v, l, r, c, p) by {}
    assert forall|kl: int, kr: int, kc: int, kx: int, ky: int|
        pos_done(pi0, v, kl, kr, kc, kx, ky) implies #[trigger] pos_done(pi1, v, kl, kr, kc, kx, ky) by {
        assert forall|l: int, r: int, c: int, x: int, y: int|
            pos_packet(pi1, l, r, c, x, y) && pos_lt(pi1, l, r, c, x, y, kl, kr, kc, kx, ky) implies is_visited(
            pi1,
            v,
            l,
            r,
            c,
            pos_precinct(pi1, r, c, x, y)->Some_0 as int,
        ) by {
            assert(pos_packet(pi0, l, r, c, x, y));
            assert(is_visited(pi0, v, l, r, c, pos_precinct(pi0, r, c, x, y)->Some_0 as int));
            assert(packet_index(pi1, l, r, c, pos_precinct(pi0, r, c, x, y)->Some_0 as int) == packet_index(
                pi0,
                l,
                r,
                c,
                pos_precinct(pi0, r, c, x, y)->Some_0 as int,
            ));
        }
    }
    if pos_all_visited(pi0, v) {
        assert forall|l: int, r: int, c: int, x: int, y: int| pos_packet(pi1, l, r, c, x, y) implies is_visited(
            pi1,
            v,
            l,
            r,
            c,
            pos_precinct(pi1, r, c, x, y)->Some_0 as int,
        ) by {
            assert(pos_packet(pi0, l, r, c, x, y));
            assert(is_visited(pi0, v, l, r, c, pos_precinct(pi0, r, c, x, y)->Some_0 as int));
            assert(packet_index(pi1, l, r, c, pos_precinct(pi0, r, c, x, y)->Some_0 as int) == packet_index(
                pi0,
                l,
                r,
                c,
                pos_precinct(pi0, r, c, x, y)->Some_0 as int,
            ));
        }
    }
    if pos_index_overflow(pi0, v) {
        let (l, r, c, p) = choose|l: int, r: int, c: int, p: int|
            #![trigger packet_index(pi0, l, r, c, p)]
            0 <= l < pi0.poc.layno1 && 0 <= r && 0 <= c < pi0.comps@.len() && r < pi0.comps@[c].numresolutions && 0
                <= p < pi0.comps@[c].resolutions@[r].pw * pi0.comps@[c].resolutions@[r].ph && packet_index(
                pi0,
                l,
                r,
                c,
                p,
            ) >= v.len();
        assert(packet_index(pi1, l, r, c, p) == packet_index(pi0, l, r, c, p));
    }
}

/// Outcome of a scan over one dimension.
enum Scan {
    Found,
    Exhausted,
    OutOfRange,
}

proof fn lemma_u32_product_fits(a: u32, b: u32)
    ensures
        (a as int) * (b as int) <= u64::MAX,
{
    assert((a as int) * (b as int) <= 0xffff_ffff * 0xffff_ffff) by (nonlinear_arith)
        requires
            a <= 0xffff_ffff,
            b <= 0xffff_ffff,
    ;
}

/// Index of a packet in the visited array, or `None` when it is not below `visited_len`.
fn visit_index(pi: &PiIterator, layno: u32, resno: u32, compno: u32, precno: u32, visited_len: usize) -> (r:
    Option<usize>)
    ensures
        match r {
            Some(i) => i == packet_index(*pi, layno as int, resno as int, compno as int, precno as int) && i
                < visited_len,
            None => packet_index(*pi, layno as int, resno as int, compno as int, precno as int) >= visited_len,
        },
{
    proof {
        lemma_u32_product_fits(layno, pi.step_l);
        lemma_u32_product_fits(resno, pi.step_r);
        lemma_u32_product_fits(compno, pi.step_c);
        lemma_u32_product_fits(precno, pi.step_p);
    }
    let a = (layno as u64) * (pi.step_l as u64);
    let b = (resno as u64) * (pi.step_r as u64);
    let c = (compno as u64) * (pi.step_c as u64);
    let d = (precno as u64) * (pi.step_p as u64);
    let s1 = a.checked_add(b);
    let s2 = match s1 {
        Some(v) => v.checked_add(c),
        None => None,
    };
    let s3 = match s2 {
        Some(v) => v.checked_add(d),
        None => None,
    };
    match s3 {
        Some(index) => {
            if index < visited_len as u64 {
                Some(index as usize)
            } else {
                None
            }
        },
        None => {
            proof {
                assert(visited_len <= u64::MAX);
            }
            None
        },
    }
}

/// Looks for an unvisited packet among precincts `[p_start, p_end)` of the current layer,
/// resolution and component, marking the first one found.
fn scan_precincts(pi: &mut PiIterator, visited: &mut [i16], p_start: u32, p_end: u32) -> (r: Scan)
    ensures
        same_config(*final(pi), *old(pi)),
        final(pi).first == old(pi).first,
        final(pi).layno == old(pi).layno && final(pi).resno == old(pi).resno && final(pi).compno == old(pi).compno,
        final(pi).dx == old(pi).dx && final(pi).dy == old(pi).dy,
        final(pi).precno == old(pi).precno || final(pi).precno < p_end,
        final(visited)@.len() == old(visited)@.len(),
        r is Found ==> packet_taken(*final(pi), old(visited)@, final(visited)@) && final(pi).precno < p_end,
        !(r is Found) ==> final(visited)@ == old(visited)@,
        !(r is Exhausted) ==> p_start <= final(pi).precno < p_end,
        r is OutOfRange ==> cur_index(*final(pi)) >= old(visited)@.len(),
        forall|p: int|
            p_start <= p < (if r is Exhausted { p_end as int } else { final(pi).precno as int }) ==> is_visited(
                *old(pi),
                old(visited)@,
                old(pi).layno as int,
                old(pi).resno as int,
                old(pi).compno as int,
                p,
            ),
{
    let len = visited.len();
    let mut precno = p_start;
    while precno < p_end
        invariant
            same_config(*pi, *old(pi)),
            pi.first == old(pi).first,
            pi.layno == old(pi).layno && pi.resno == old(pi).resno && pi.compno == old(pi).compno,
            pi.dx == old(pi).dx && pi.dy == old(pi).dy,
            pi.precno == old(pi).precno || pi.precno < p_end,
            visited@ == old(visited)@,
            len == visited@.len(),
            p_start <= precno,
            forall|p: int|
                p_start <= p < precno ==> is_visited(
                    *old(pi),
                    old(visited)@,
                    old(pi).layno as int,
                    old(pi).resno as int,
                    old(pi).compno as int,
                    p,
                ),
        decreases p_end - precno,
    {
        pi.precno = precno;
        match visit_index(pi, pi.layno, pi.resno, pi.compno, precno, len) {
            None => {
                return Scan::OutOfRange;
            },
            Some(index) => {
                if visited[index] == 0 {
                    visited[index] = 1;
                    return Scan::Found;
                }
            },
        }
        precno += 1;
    }
    Scan::Exhausted
}

/// Looks for an unvisited packet among layers `[l_start, l_end)` of the current
/// resolution, component and precinct, marking the first one found.
fn scan_layers(pi: &mut PiIterator, visited: &mut [i16], l_start: u32, l_end: u32) -> (r: Scan)
    ensures
        same_config(*final(pi), *old(pi)),
        final(pi).first == old(pi).first,
        final(pi).precno == old(pi).precno && final(pi).resno == old(pi).resno && final(pi).compno == old(pi).compno,
        final(pi).dx == old(pi).dx && final(pi).dy == old(pi).dy,
        final(pi).layno == old(pi).layno || final(pi).layno < l_end,
        final(visited)@.len() == old(visited)@.len(),
        r is Found ==> packet_taken(*final(pi), old(visited)@, final(visited)@) && final(pi).layno < l_end,
        !(r is Found) ==> final(visited)@ == old(visited)@,
        final(pi).x == old(pi).x && final(pi).y == old(pi).y,
        !(r is Exhausted) ==> l_start <= final(pi).layno < l_end,
        r is OutOfRange ==> cur_index(*final(pi)) >= old(visited)@.len(),
        forall|l: int|
            l_start <= l < (if r is Exhausted { l_end as int } else { final(pi).layno as int }) ==> is_visited(
                *old(pi),
                old(visited)@,
                l,
                old(pi).resno as int,
                old(pi).compno as int,
                old(pi).precno as int,
            ),
{
    let len = visited.len();
    let mut layno = l_start;
    while layno < l_end
        invariant
            same_config(*pi, *old(pi)),
            pi.first == old(pi).first,
            pi.precno == old(pi).precno && pi.resno == old(pi).resno && pi.compno == old(pi).compno,
            pi.dx == old(pi).dx && pi.dy == old(pi).dy,
            pi.x == old(pi).x && pi.y == old(pi).y,
            pi.layno == old(pi).layno || pi.layno < l_end,
            visited@ == old(visited)@,
            len == visited@.len(),
            l_start <= layno,
            forall|l: int|
                l_start <= l < layno ==> is_visited(
                    *old(pi),
                    old(visited)@,
                    l,
                    old(pi).resno as int,
                    old(pi).compno as int,
                    old(pi).precno as int,
                ),
        decreases l_end - layno,
    {
        pi.layno = layno;
        match visit_index(pi, layno, pi.resno, pi.compno, pi.precno, len) {
            None => {
                return Scan::OutOfRange;
            },
            Some(index) => {
                if visited[index] == 0 {
                    visited[index] = 1;
                    return Scan::Found;
                }
            },
        }
        layno += 1;
    }
    Scan::Exhausted
}

/// Marks stay marked when the record changes only by marking one more packet.
proof fn lemma_done_marked(pi: PiIterator, v0: Seq<i16>, v1: Seq<i16>, i: int, kl: int, kr: int, kc: int, kp: int)
    requires
        done_before(pi, v0, kl, kr, kc, kp),
        0 <= i < v0.len(),
        v1 == v0.update(i, 1),
    ensures
        done_before(pi, v1, kl, kr, kc, kp),
{
    assert forall|l: int, r: int, c: int, p: int|
        in_progression(pi, l, r, c, p) && order_lt(pi, l, r, c, p, kl, kr, kc, kp) implies is_visited(
        pi,
        v1,
        l,
        r,
        c,
        p,
    ) by {
        assert(is_visited(pi, v0, l, r, c, p));
    }
}

/// What the iteration reads of the iterator is its configuration.
proof fn lemma_config_preds(pi0: PiIterator, pi1: PiIterator, v: Seq<i16>)
    requires
        same_config(pi0, pi1),
    ensures
        forall|kl: int, kr: int, kc: int, kp: int|
            done_before(pi0, v, kl, kr, kc, kp) ==> #[trigger] done_before(pi1, v, kl, kr, kc, kp),
        all_visited(pi0, v) ==> all_visited(pi1, v),
        index_overflow(pi0, v) ==> index_overflow(pi1, v),
{
    assert(pi0.poc == pi1.poc && pi0.comps == pi1.comps && pi0.tp_on == pi1.tp_on);
    assert forall|l: int, r: int, c: int, p: int| #![trigger in_progression(pi1, l, r, c, p)]
        in_progression(pi1, l, r, c, p) == in_progression(pi0, l, r, c, p) && in_range(pi1, l, r, c, p)
            == in_range(pi0, l, r, c, p) && is_visited(pi1, v, l, r, c, p) == is_visited(pi0, v, l, r, c, p)
            && packet_index(pi1, l, r, c, p) == packet_index(pi0, l, r, c, p) by {}
    assert forall|kl: int, kr: int, kc: int, kp: int|
        done_before(pi0, v, kl, kr, kc, kp) implies #[trigger] done_before(pi1, v, kl, kr, kc, kp) by {
        assert forall|l: int, r: int, c: int, p: int|
            in_progression(pi1, l, r, c, p) && order_lt(pi1, l, r, c, p, kl, kr, kc, kp) implies is_visited(
            pi1,
            v,
            l,
            r,
            c,
            p,
        ) by {
            assert(in_progression(pi0, l, r, c, p));
        }
    }
    if all_visited(pi0, v) {
        assert forall|l: int, r: int, c: int, p: int| in_progression(pi1, l, r, c, p) implies is_visited(
            pi1,
            v,
            l,
            r,
            c,
            p,
        ) by {
            assert(in_progression(pi0, l, r, c, p));
        }
    }
    if index_overflow(pi0, v) {
        let (l, r, c, p) = choose|l: int, r: int, c: int, p: int|
            #![trigger in_range(pi0, l, r, c, p)]
            in_range(pi0, l, r, c, p) && packet_index(pi0, l, r, c, p) >= v.len();
        assert(in_range(pi1, l, r, c, p));
    }
}

/// In layer-major order, the packets of layers below `kl` that are marked include every
/// packet of the progression before `(kl, kr, kc, kp)` when no packet of the progression
/// lies between: the inner dimensions start at their lower bounds or run past their upper
/// bounds.
proof fn lemma_lrcp_skip(
    pi: PiIterator,
    v: Seq<i16>,
    a: (int, int, int, int),
    b: (int, int, int, int),
)
    requires
        pi.poc.prg != ProgressionOrder::Rlcp,
        done_before(pi, v, a.0, a.1, a.2, a.3),
        forall|l: int, r: int, c: int, p: int|
            #![trigger in_progression(pi, l, r, c, p)]
            in_progression(pi, l, r, c, p) && lex_lt(l, r, c, p, b.0, b.1, b.2, b.3) ==> lex_lt(
                l,
                r,
                c,
                p,
                a.0,
                a.1,
                a.2,
                a.3,
            ),
    ensures
        done_before(pi, v, b.0, b.1, b.2, b.3),
{
}

/// In either layer- or resolution-major order, marking the precincts `[s, e)` of one
/// layer, resolution and component extends the marked prefix from precinct `s` to `e`.
proof fn lemma_scan_extends(pi: PiIterator, v: Seq<i16>, l: int, r: int, c: int, s: int, e: int)
    requires
        done_before(pi, v, l, r, c, s),
        forall|p: int| s <= p < e ==> is_visited(pi, v, l, r, c, p),
    ensures
        done_before(pi, v, l, r, c, e),
{
    assert forall|l2: int, r2: int, c2: int, p: int|
        in_progression(pi, l2, r2, c2, p) && order_lt(pi, l2, r2, c2, p, l, r, c, e) implies is_visited(
        pi,
        v,
        l2,
        r2,
        c2,
        p,
    ) by {
        if !order_lt(pi, l2, r2, c2, p, l, r, c, s) {
            assert(l2 == l && r2 == r && c2 == c && s <= p < e);
        }
    }
}

/// Layer, then resolution, component and precinct.
pub fn pi_next_lrcp(pi: &mut PiIterator, visited: &mut [i16]) -> (r: bool)
    requires
        pi_wf(*old(pi)),
        old(pi).poc.prg == ProgressionOrder::Lrcp,
    ensures
        step_done(*old(pi), *final(pi), old(visited)@, final(visited)@, r),
        step_complete(*old(pi), *final(pi), old(visited)@, final(visited)@, r),
{
    let ghost pi0 = *pi;
    let ghost v0 = visited@;
    let ghost can_go_on = resumable(pi0, v0);
    let ghost (l0, r0, c0, p0) = (pi0.layno as int, pi0.resno as int, pi0.compno as int, pi0.precno + 1);
    let mut resuming = !pi.first;
    if pi.first {
        pi.first = false;
    }
    let layno_end = pi.poc.layno1;
    let mut layno = if resuming { pi.layno } else { pi.poc.layno0 };
    while layno < layno_end
        invariant
            pi_wf(pi0),
            pi0 == *old(pi),
            l0 == pi0.layno && r0 == pi0.resno && c0 == pi0.compno && p0 == pi0.precno + 1,
            can_go_on == resumable(pi0, v0),
            pi.poc.prg == ProgressionOrder::Lrcp,
            v0 == old(visited)@,
            same_config(*pi, pi0),
            !pi.first,
            pi.dx == pi0.dx && pi.dy == pi0.dy,
            pi.precno < u32::MAX && pi.layno < u32::MAX,
            visited@ == v0,
            layno_end == pi.poc.layno1,
            can_go_on && resuming ==> !pi0.first && layno == l0 && pi.resno == r0 && pi.compno == c0 && pi.precno + 1 == p0,
            can_go_on ==> (if resuming {
                packet_in_bounds(pi0) && done_before(pi0, v0, l0, r0, c0, p0)
            } else {
                done_before(pi0, v0, layno as int, 0, 0, 0)
            }),
        decreases layno_end - layno,
    {
        pi.layno = layno;
        let resno_end = pi.poc.resno1;
        let mut resno = if resuming { pi.resno } else { pi.poc.resno0 };
        proof {
            if can_go_on && !resuming {
                lemma_lrcp_skip(pi0, v0, (layno as int, 0, 0, 0), (layno as int, resno as int, 0, 0));
            }
        }
        while resno < resno_end
            invariant
                pi_wf(pi0),
                pi0 == *old(pi),
                l0 == pi0.layno && r0 == pi0.resno && c0 == pi0.compno && p0 == pi0.precno + 1,
                can_go_on == resumable(pi0, v0),
                pi.poc.prg == ProgressionOrder::Lrcp,
                v0 == old(visited)@,
                same_config(*pi, pi0),
                !pi.first,
                pi.dx == pi0.dx && pi.dy == pi0.dy,
                pi.precno < u32::MAX && pi.layno < u32::MAX,
                visited@ == v0,
                layno < layno_end,
                layno_end == pi.poc.layno1,
                resno_end == pi.poc.resno1,
                pi.layno == layno,
                can_go_on && resuming ==> !pi0.first && layno == l0 && resno == r0 && pi.compno == c0 && pi.precno + 1 == p0,
                can_go_on ==> (if resuming {
                    packet_in_bounds(pi0) && done_before(pi0, v0, l0, r0, c0, p0)
                } else {
                    done_before(pi0, v0, layno as int, resno as int, 0, 0)
                }),
            decreases resno_end - resno,
        {
            pi.resno = resno;
            let compno_end = pi.poc.compno1;
            let mut compno = if resuming { pi.compno } else { pi.poc.compno0 };
            proof {
                if can_go_on && !resuming {
                    lemma_lrcp_skip(pi0, v0, (layno as int, resno as int, 0, 0), (layno as int, resno as int, compno as int, 0));
                }
            }
            while compno < compno_end
                invariant
                    pi_wf(pi0),
                    pi0 == *old(pi),
                    l0 == pi0.layno && r0 == pi0.resno && c0 == pi0.compno && p0 == pi0.precno + 1,
                    can_go_on == resumable(pi0, v0),
                    pi.poc.prg == ProgressionOrder::Lrcp,
                    v0 == old(visited)@,
                    same_config(*pi, pi0),
                    !pi.first,
                    pi.dx == pi0.dx && pi.dy == pi0.dy,
                    pi.precno < u32::MAX && pi.layno < u32::MAX,
                    visited@ == v0,
                    layno < layno_end,
                    resno < resno_end,
                    layno_end == pi.poc.layno1,
                    resno_end == pi.poc.resno1,
                    compno_end == pi.poc.compno1,
                    pi.layno == layno,
                    pi.resno == resno,
                    can_go_on && resuming ==> !pi0.first && layno == l0 && resno == r0 && compno == c0 && pi.precno + 1 == p0,
                    can_go_on ==> (if resuming {
                        packet_in_bounds(pi0) && done_before(pi0, v0, l0, r0, c0, p0)
                    } else {
                        done_before(pi0, v0, layno as int, resno as int, compno as int, 0)
                    }),
                decreases compno_end - compno,
            {
                pi.compno = compno;
                if (compno as usize) < pi.comps.len() && resno < pi.comps[compno as usize].numresolutions {
                    proof {
                        assert(comp_wf(pi.comps@[compno as int]));
                        assert(res_wf(pi.comps@[compno as int].resolutions@[resno as int], pi.comps@[compno as int].numresolutions));
                    }
                    let pw = pi.comps[compno as usize].resolutions[resno as usize].pw;
                    let ph = pi.comps[compno as usize].resolutions[resno as usize].ph;
                    let precno_end = if !pi.tp_on { pw * ph } else { pi.poc.precno1 };
                    let ghost was_resuming = resuming;
                    let precno_start = if resuming {
                        resuming = false;
                        pi.precno + 1
                    } else {
                        pi.poc.precno0
                    };
                    proof {
                        assert(precno_end == precinct_end(pi0, compno as int, resno as int));
                        if can_go_on && !was_resuming {
                            lemma_lrcp_skip(
                                pi0,
                                v0,
                                (layno as int, resno as int, compno as int, 0),
                                (layno as int, resno as int, compno as int, precno_start as int),
                            );
                        }
                    }
                    let ghost pi_before = *pi;
                    let outcome = scan_precincts(pi, visited, precno_start, precno_end);
                    proof {
                        let hi = if outcome is Exhausted { precno_end as int } else { pi.precno as int };
                        assert forall|p: int| precno_start <= p < hi implies is_visited(
                            pi0,
                            v0,
                            layno as int,
                            resno as int,
                            compno as int,
                            p,
                        ) by {
                            assert(is_visited(pi_before, v0, layno as int, resno as int, compno as int, p));
                        }
                    }
                    match outcome {
                        Scan::Found => {
                            proof {
                                if can_go_on {
                                    let ghost pn = pi.precno as int;
                                    lemma_scan_extends(pi0, v0, layno as int, resno as int, compno as int, precno_start as int, pn);
                                    lemma_done_marked(pi0, v0, visited@, cur_index(*pi), layno as int, resno as int, compno as int, pn);
                                    assert(is_visited(pi0, visited@, layno as int, resno as int, compno as int, pn));
                                    lemma_scan_extends(pi0, visited@, layno as int, resno as int, compno as int, pn, pn + 1);
                                    lemma_config_preds(pi0, *pi, visited@);
                                }
                            }
                            return true;
                        },
                        Scan::OutOfRange => {
                            proof {
                                assert(in_range(pi0, layno as int, resno as int, compno as int, pi.precno as int));
                                assert(index_overflow(pi0, v0));
                                lemma_config_preds(pi0, *pi, visited@);
                            }
                            return false;
                        },
                        Scan::Exhausted => {
                            proof {
                                if can_go_on {
                                    lemma_scan_extends(pi0, v0, layno as int, resno as int, compno as int, precno_start as int, precno_end as int);
                                    lemma_lrcp_skip(
                                        pi0,
                                        v0,
                                        (layno as int, resno as int, compno as int, precno_end as int),
                                        (layno as int, resno as int, compno + 1, 0),
                                    );
                                }
                            }
                        },
                    }
                } else {
                    proof {
                        if can_go_on {
                            let ghost a = if resuming { (l0, r0, c0, p0) } else { (layno as int, resno as int, compno as int, 0) };
                            lemma_lrcp_skip(pi0, v0, a, (layno as int, resno as int, compno + 1, 0));
                        }
                    }
                    resuming = false;
                }
                compno += 1;
            }
            proof {
                if can_go_on && resuming {
                    assert(compno == c0);
                    assert(packet_in_bounds(pi0));
                    assert(compno >= compno_end);
                }
                if can_go_on {
                    lemma_lrcp_skip(pi0, v0, (layno as int, resno as int, compno as int, 0), (layno as int, resno + 1, 0, 0));
                }
            }
            resno += 1;
        }
        proof {
            if can_go_on {
                lemma_lrcp_skip(pi0, v0, (layno as int, resno as int, 0, 0), (layno + 1, 0, 0, 0));
            }
        }
        layno += 1;
    }
    proof {
        if can_go_on {
            assert forall|l: int, r: int, c: int, p: int| in_progression(pi0, l, r, c, p) implies is_visited(
                pi0,
                v0,
                l,
                r,
                c,
                p,
            ) by {
                assert(order_lt(pi0, l, r, c, p, layno as int, 0, 0, 0));
            }
            lemma_config_preds(pi0, *pi, v0);
        }
    }
    false
}

/// In resolution-major order, the marked prefix extends over a stretch with no packet of
/// the progression.
proof fn lemma_rlcp_skip(
    pi: PiIterator,
    v: Seq<i16>,
    a: (int, int, int, int),
    b: (int, int, int, int),
)
    requires
        pi.poc.prg == ProgressionOrder::Rlcp,
        done_before(pi, v, a.0, a.1, a.2, a.3),
        forall|l: int, r: int, c: int, p: int|
            #![trigger in_progression(pi, l, r, c, p)]
            in_progression(pi, l, r, c, p) && lex_lt(r, l, c, p, b.1, b.0, b.2, b.3) ==> lex_lt(
                r,
                l,
                c,
                p,
                a.1,
                a.0,
                a.2,
                a.3,
            ),
    ensures
        done_before(pi, v, b.0, b.1, b.2, b.3),
{
}

/// Resolution, then layer, component and precinct.
pub fn pi_next_rlcp(pi: &mut PiIterator, visited: &mut [i16]) -> (r: bool)
    requires
        pi_wf(*old(pi)),
        old(pi).poc.prg == ProgressionOrder::Rlcp,
    ensures
        step_done(*old(pi), *final(pi), old(visited)@, final(visited)@, r),
        step_complete(*old(pi), *final(pi), old(visited)@, final(visited)@, r),
{
    let ghost pi0 = *pi;
    let ghost v0 = visited@;
    let ghost can_go_on = resumable(pi0, v0);
    let ghost (l0, r0, c0, p0) = (pi0.layno as int, pi0.resno as int, pi0.compno as int, pi0.precno + 1);
    let mut resuming = !pi.first;
    if pi.first {
        pi.first = false;
    }
    let resno_end = pi.poc.resno1;
    let mut resno = if resuming { pi.resno } else { pi.poc.resno0 };
    while resno < resno_end
        invariant
            pi_wf(pi0),
            pi0 == *old(pi),
            l0 == pi0.layno && r0 == pi0.resno && c0 == pi0.compno && p0 == pi0.precno + 1,
            can_go_on == resumable(pi0, v0),
            pi.poc.prg == ProgressionOrder::Rlcp,
            v0 == old(visited)@,
            same_config(*pi, pi0),
            !pi.first,
            pi.dx == pi0.dx && pi.dy == pi0.dy,
            pi.precno < u32::MAX && pi.layno < u32::MAX,
            visited@ == v0,
            resno_end == pi.poc.resno1,
            can_go_on && resuming ==> !pi0.first && resno == r0 && pi.layno == l0 && pi.compno == c0 && pi.precno + 1 == p0,
            can_go_on ==> (if resuming {
                packet_in_bounds(pi0) && done_before(pi0, v0, l0, r0, c0, p0)
            } else {
                done_before(pi0, v0, 0, resno as int, 0, 0)
            }),
        decreases resno_end - resno,
    {
        pi.resno = resno;
        let layno_end = pi.poc.layno1;
        let mut layno = if resuming { pi.layno } else { pi.poc.layno0 };
        proof {
            if can_go_on && !resuming {
                lemma_rlcp_skip(pi0, v0, (0, resno as int, 0, 0), (layno as int, resno as int, 0, 0));
            }
        }
        while layno < layno_end
            invariant
                pi_wf(pi0),
                pi0 == *old(pi),
                l0 == pi0.layno && r0 == pi0.resno && c0 == pi0.compno && p0 == pi0.precno + 1,
                can_go_on == resumable(pi0, v0),
                pi.poc.prg == ProgressionOrder::Rlcp,
                v0 == old(visited)@,
                same_config(*pi, pi0),
                !pi.first,
                pi.dx == pi0.dx && pi.dy == pi0.dy,
                pi.precno < u32::MAX && pi.layno < u32::MAX,
                visited@ == v0,
                resno < resno_end,
                resno_end == pi.poc.resno1,
                layno_end == pi.poc.layno1,
                pi.resno == resno,
                can_go_on && resuming ==> !pi0.first && resno == r0 && layno == l0 && pi.compno == c0 && pi.precno + 1 == p0,
                can_go_on ==> (if resuming {
                    packet_in_bounds(pi0) && done_before(pi0, v0, l0, r0, c0, p0)
                } else {
                    done_before(pi0, v0, layno as int, resno as int, 0, 0)
                }),
            decreases layno_end - layno,
        {
            pi.layno = layno;
            let compno_end = pi.poc.compno1;
            let mut compno = if resuming { pi.compno } else { pi.poc.compno0 };
            proof {
                if can_go_on && !resuming {
                    lemma_rlcp_skip(pi0, v0, (layno as int, resno as int, 0, 0), (layno as int, resno as int, compno as int, 0));
                }
            }
            while compno < compno_end
                invariant
                    pi_wf(pi0),
                    pi0 == *old(pi),
                    l0 == pi0.layno && r0 == pi0.resno && c0 == pi0.compno && p0 == pi0.precno + 1,
                    can_go_on == resumable(pi0, v0),
                    pi.poc.prg == ProgressionOrder::Rlcp,
                    v0 == old(visited)@,
                    same_config(*pi, pi0),
                    !pi.first,
                    pi.dx == pi0.dx && pi.dy == pi0.dy,
                    pi.precno < u32::MAX && pi.layno < u32::MAX,
                    visited@ == v0,
                    layno < layno_end,
                    resno < resno_end,
                    layno_end == pi.poc.layno1,
                    resno_end == pi.poc.resno1,
                    compno_end == pi.poc.compno1,
                    pi.layno == layno,
                    pi.resno == resno,
                    can_go_on && resuming ==> !pi0.first && layno == l0 && resno == r0 && compno == c0 && pi.precno + 1 == p0,
                    can_go_on ==> (if resuming {
                        packet_in_bounds(pi0) && done_before(pi0, v0, l0, r0, c0, p0)
                    } else {
                        done_before(pi0, v0, layno as int, resno as int, compno as int, 0)
                    }),
                decreases compno_end - compno,
            {
                pi.compno = compno;
                if (compno as usize) < pi.comps.len() && resno < pi.comps[compno as usize].numresolutions {
                    proof {
                        assert(comp_wf(pi.comps@[compno as int]));
                        assert(res_wf(pi.comps@[compno as int].resolutions@[resno as int], pi.comps@[compno as int].numresolutions));
                    }
                    let pw = pi.comps[compno as usize].resolutions[resno as usize].pw;
                    let ph = pi.comps[compno as usize].resolutions[resno as usize].ph;
                    let precno_end = if !pi.tp_on { pw * ph } else { pi.poc.precno1 };
                    let ghost was_resuming = resuming;
                    let precno_start = if resuming {
                        resuming = false;
                        pi.precno + 1
                    } else {
                        pi.poc.precno0
                    };
                    proof {
                        assert(precno_end == precinct_end(pi0, compno as int, resno as int));
                        if can_go_on && !was_resuming {
                            lemma_rlcp_skip(
                                pi0,
                                v0,
                                (layno as int, resno as int, compno as int, 0),
                                (layno as int, resno as int, compno as int, precno_start as int),
                            );
                        }
                    }
                    let ghost pi_before = *pi;
                    let outcome = scan_precincts(pi, visited, precno_start, precno_end);
                    proof {
                        let hi = if outcome is Exhausted { precno_end as int } else { pi.precno as int };
                        assert forall|p: int| precno_start <= p < hi implies is_visited(
                            pi0,
                            v0,
                            layno as int,
                            resno as int,
                            compno as int,
                            p,
                        ) by {
                            assert(is_visited(pi_before, v0, layno as int, resno as int, compno as int, p));
                        }
                    }
                    match outcome {
                        Scan::Found => {
                            proof {
                                if can_go_on {
                                    let ghost pn = pi.precno as int;
                                    lemma_scan_extends(pi0, v0, layno as int, resno as int, compno as int, precno_start as int, pn);
                                    lemma_done_marked(pi0, v0, visited@, cur_index(*pi), layno as int, resno as int, compno as int, pn);
                                    assert(is_visited(pi0, visited@, layno as int, resno as int, compno as int, pn));
                                    lemma_scan_extends(pi0, visited@, layno as int, resno as int, compno as int, pn, pn + 1);
                                    lemma_config_preds(pi0, *pi, visited@);
                                }
                            }
                            return true;
                        },
                        Scan::OutOfRange => {
                            proof {
                                assert(in_range(pi0, layno as int, resno as int, compno as int, pi.precno as int));
                                assert(index_overflow(pi0, v0));
                                lemma_config_preds(pi0, *pi, visited@);
                            }
                            return false;
                        },
                        Scan::Exhausted => {
                            proof {
                                if can_go_on {
                                    lemma_scan_extends(pi0, v0, layno as int, resno as int, compno as int, precno_start as int, precno_end as int);
                                    lemma_rlcp_skip(
                                        pi0,
                                        v0,
                                        (layno as int, resno as int, compno as int, precno_end as int),
                                        (layno as int, resno as int, compno + 1, 0),
                                    );
                                }
                            }
                        },
                    }
                } else {
                    proof {
                        if can_go_on {
                            let ghost a = if resuming { (l0, r0, c0, p0) } else { (layno as int, resno as int, compno as int, 0) };
                            lemma_rlcp_skip(pi0, v0, a, (layno as int, resno as int, compno + 1, 0));
                        }
                    }
                    resuming = false;
                }
                compno += 1;
            }
            proof {
                if can_go_on && resuming {
                    assert(compno == c0);
                    assert(packet_in_bounds(pi0));
                    assert(compno >= compno_end);
                }
                if can_go_on {
                    lemma_rlcp_skip(pi0, v0, (layno as int, resno as int, compno as int, 0), (layno + 1, resno as int, 0, 0));
                }
            }
            layno += 1;
        }
        proof {
            if can_go_on {
                lemma_rlcp_skip(pi0, v0, (layno as int, resno as int, 0, 0), (0, resno + 1, 0, 0));
            }
        }
        resno += 1;
    }
    proof {
        if can_go_on {
            assert forall|l: int, r: int, c: int, p: int| in_progression(pi0, l, r, c, p) implies is_visited(
                pi0,
                v0,
                l,
                r,
                c,
                p,
            ) by {
                assert(order_lt(pi0, l, r, c, p, 0, resno as int, 0, 0));
            }
            lemma_config_preds(pi0, *pi, v0);
        }
    }
    false
}

/// What every loop of a step of iteration keeps: the configuration, the visited packets,
/// and cursor indices below the largest value.
spec fn iter_inv(pi: PiIterator, pi0: PiIterator, vis: Seq<i16>, v0: Seq<i16>) -> bool {
    &&& pi_wf(pi0)
    &&& same_config(pi, pi0)
    &&& !pi.first
    &&& vis == v0
    &&& pi.precno < u32::MAX
    &&& pi.layno < u32::MAX
}

/// Moving a position to the next multiple of `d` stays within 32 bits for positions
/// below `2^31`, and moves forward.
proof fn lemma_next_multiple(x: u32, d: u32)
    requires
        d > 0,
        x < 0x8000_0000,
    ensures
        x % d < d,
        x + (d - x % d) <= u32::MAX,
        x + (d - x % d) > x,
        (x + (d - x % d)) % (d as int) == 0,
{
    vstd::arithmetic::div_mod::lemma_mod_bound(x as int, d as int);
    if x < d {
        vstd::arithmetic::div_mod::lemma_small_mod(x as nat, d as nat);
    }
    vstd::arithmetic::div_mod::lemma_fundamental_div_mod(x as int, d as int);
    let q = x as int / d as int;
    assert(x + (d - x % d) == (q + 1) * d) by (nonlinear_arith)
        requires
            x == d * q + x % d,
    ;
    vstd::arithmetic::div_mod::lemma_mod_multiples_basic(q + 1, d as int);
}

/// Smallest precinct spacing, in image coordinates, over resolutions `[resno0, resno1)`
/// and components `[compno0, compno1)`; 0 when none of them exists.
/// Precinct size in image coordinates of resolution `r` of component `c`, when it has
/// one: the component's sub-sampling times the precinct size at that level, saturated at
/// the largest `u32`.
pub open spec fn res_spacing(pi: PiIterator, c: int, r: int) -> Option<(u32, u32)> {
    if 0 <= c < pi.comps@.len() && 0 <= r < pi.comps@[c].numresolutions {
        let comp = pi.comps@[c];
        let res = comp.resolutions@[r];
        let levelno = (comp.numresolutions - 1 - r) as u32;
        let sx = (res.pdx + levelno) as u32;
        let sy = (res.pdy + levelno) as u32;
        let px: u32 = if sx < 32 { 1u32 << sx } else { u32::MAX };
        let py: u32 = if sy < 32 { 1u32 << sy } else { u32::MAX };
        let dx: u32 = if comp.dx * px > u32::MAX { u32::MAX } else { (comp.dx * px) as u32 };
        let dy: u32 = if comp.dy * py > u32::MAX { u32::MAX } else { (comp.dy * py) as u32 };
        Some((dx, dy))
    } else {
        None
    }
}

/// `acc` lowered to `v`, where `acc` is unset (0) or larger.
pub open spec fn min_set(acc: u32, v: u32) -> u32 {
    if acc == 0 || acc > v { v } else { acc }
}

/// The spacing gathered over components `[c, c1)` of resolution `r`, from `acc`.
pub open spec fn spacing_over_comps(pi: PiIterator, r: int, c: int, c1: int, acc: (u32, u32)) -> (u32, u32)
    decreases c1 - c,
{
    if c >= c1 {
        acc
    } else {
        let next = match res_spacing(pi, c, r) {
            Some(sp) => (min_set(acc.0, sp.0), min_set(acc.1, sp.1)),
            None => acc,
        };
        spacing_over_comps(pi, r, c + 1, c1, next)
    }
}

/// The spacing gathered over resolutions `[r, r1)` and components `[c0, c1)`, from `acc`:
/// the smallest precinct size in image coordinates along each axis (0 when none).
pub open spec fn spacing_over(pi: PiIterator, r: int, r1: int, c0: int, c1: int, acc: (u32, u32)) -> (u32, u32)
    decreases r1 - r,
{
    if r >= r1 {
        acc
    } else {
        spacing_over(pi, r + 1, r1, c0, c1, spacing_over_comps(pi, r, c0, c1, acc))
    }
}

fn compute_precinct_spacing(pi: &PiIterator, resno0: u32, resno1: u32, compno0: u32, compno1: u32) -> (r: (u32, u32))
    requires
        pi_wf(*pi),
    ensures
        r == spacing_over(*pi, resno0 as int, resno1 as int, compno0 as int, compno1 as int, (0u32, 0u32)),
{
    let mut dx: u32 = 0;
    let mut dy: u32 = 0;
    let mut resno = resno0;
    while resno < resno1
        invariant
            pi_wf(*pi),
            resno0 <= resno || resno1 <= resno0,
            spacing_over(*pi, resno as int, resno1 as int, compno0 as int, compno1 as int, (dx, dy)) == spacing_over(
                *pi,
                resno0 as int,
                resno1 as int,
                compno0 as int,
                compno1 as int,
                (0u32, 0u32),
            ),
        decreases resno1 - resno,
    {
        let mut compno = compno0;
        let ghost acc0 = (dx, dy);
        while compno < compno1
            invariant
                pi_wf(*pi),
                resno < resno1,
                spacing_over_comps(*pi, resno as int, compno as int, compno1 as int, (dx, dy)) == spacing_over_comps(
                    *pi,
                    resno as int,
                    compno0 as int,
                    compno1 as int,
                    acc0,
                ),
            decreases compno1 - compno,
        {
            let ghost before = (dx, dy);
            if (compno as usize) < pi.comps.len() && resno < pi.comps[compno as usize].numresolutions {
                let comp = &pi.comps[compno as usize];
                proof {
                    assert(comp_wf(pi.comps@[compno as int]));
                    assert(res_wf(comp.resolutions@[resno as int], comp.numresolutions));
                }
                let res = &comp.resolutions[resno as usize];
                let levelno = comp.numresolutions - 1 - resno;
                let sx = res.pdx + levelno;
                let sy = res.pdy + levelno;
                let px: u32 = if sx < 32 { 1u32 << sx } else { u32::MAX };
                let py: u32 = if sy < 32 { 1u32 << sy } else { u32::MAX };
                let dx_cur = match comp.dx.checked_mul(px) {
                    Some(v) => v,
                    None => u32::MAX,
                };
                let dy_cur = match comp.dy.checked_mul(py) {
                    Some(v) => v,
                    None => u32::MAX,
                };
                if dx == 0 || dx > dx_cur {
                    dx = dx_cur;
                }
                if dy == 0 || dy > dy_cur {
                    dy = dy_cur;
                }
                proof {
                    vstd::arithmetic::power2::lemma2_to64();
                    assert(res_spacing(*pi, compno as int, resno as int) == Some((dx_cur, dy_cur)));
                }
            }
            compno += 1;
        }
        resno += 1;
    }
    (dx, dy)
}

/// `a / b` rounded up.
fn ceil_div_u64(a: u64, b: u64) -> (r: u64)
    requires
        b > 0,
    ensures
        r as int == (a as int + b as int - 1) / (b as int),
        r <= a,
{
    proof {
        vstd::arithmetic::div_mod::lemma_fundamental_div_mod(a as int, b as int);
        vstd::arithmetic::div_mod::lemma_mod_bound(a as int, b as int);
        vstd::arithmetic::div_mod::lemma_div_is_ordered_by_denominator(a as int, 1, b as int);
        vstd::arithmetic::div_mod::lemma_fundamental_div_mod((a as int + b as int - 1), b as int);
        vstd::arithmetic::div_mod::lemma_mod_bound((a as int + b as int - 1), b as int);
    }
    let q = a / b;
    if a % b != 0 {
        proof {
            assert(q + 1 <= a) by (nonlinear_arith)
                requires
                    a == b * q + a % b,
                    a % b > 0,
                    b >= 1,
            ;
            assert((a as int + b as int - 1) / (b as int) == q + 1) by (nonlinear_arith)
                requires
                    a == b * q + a % b,
                    0 < a % b < b,
                    (a as int + b as int - 1) == b * ((a as int + b as int - 1) / (b as int)) + (a as int + b
                        as int - 1) % (b as int),
                    0 <= (a as int + b as int - 1) % (b as int) < b,
            ;
        }
        q + 1
    } else {
        proof {
            assert((a as int + b as int - 1) / (b as int) == q) by (nonlinear_arith)
                requires
                    a == b * q,
                    b >= 1,
                    (a as int + b as int - 1) == b * ((a as int + b as int - 1) / (b as int)) + (a as int + b
                        as int - 1) % (b as int),
                    0 <= (a as int + b as int - 1) % (b as int) < b,
            ;
        }
        q
    }
}

/// Index of the precinct of resolution `resno` that starts at position `(x, y)`, or `None`
/// when no precinct boundary of that resolution lies there.
/// `ceil(a / b)` for a positive `b`.
pub open spec fn ceil_div(a: int, b: int) -> int {
    (a + b - 1) / b
}

/// The precinct of resolution `resno` of component `comp` at image position `(x, y)`: the
/// position must lie on that resolution's precinct grid (a multiple of the component's
/// sub-sampling times the precinct size at that level) or on the tile's first column or
/// row; the position, brought to the resolution, gives the precinct column and row counted
/// from the tile's first precinct, and the index counts `pw` precincts per row.
pub open spec fn precinct_at(comp: PiComp, res: PiResolution, resno: u32, x: u32, y: u32, tx0: u32, ty0: u32) -> Option<
    u32,
> {
    let levelno = (comp.numresolutions - 1 - resno) as u32;
    let rpx = res.pdx + levelno;
    let rpy = res.pdy + levelno;
    let x_step: u64 = if rpx < 64 { (comp.dx as u64) << (rpx as u64) } else { 0 };
    let y_step: u64 = if rpy < 64 { (comp.dy as u64) << (rpy as u64) } else { 0 };
    let div_x: u64 = (comp.dx as u64) << (levelno as u64);
    let div_y: u64 = (comp.dy as u64) << (levelno as u64);
    if x_step == 0 || y_step == 0 || ((y as u64) % y_step != 0 && y != ty0) || ((x as u64) % x_step != 0 && x
        != tx0) || div_x == 0 || div_y == 0 {
        None
    } else {
        let prci = ((ceil_div(x as int, div_x as int) as i64) >> res.pdx) - ((ceil_div(tx0 as int, div_x as int)
            as i64) >> res.pdx);
        let prcj = ((ceil_div(y as int, div_y as int) as i64) >> res.pdy) - ((ceil_div(ty0 as int, div_y as int)
            as i64) >> res.pdy);
        if prci < 0 || prcj < 0 {
            None
        } else {
            Some((prci + prcj * res.pw) as u32)
        }
    }
}

fn compute_precinct_index(comp: &PiComp, res: &PiResolution, resno: u32, x: u32, y: u32, tx0: u32, ty0: u32) -> (r:
    Option<u32>)
    requires
        comp_wf(*comp),
        resno < comp.numresolutions,
        res_wf(*res, comp.numresolutions),
    ensures
        r == precinct_at(*comp, *res, resno, x, y, tx0, ty0),
{
    let levelno = comp.numresolutions - 1 - resno;
    let rpx = res.pdx + levelno;
    let rpy = res.pdy + levelno;
    let x_step: u64 = if rpx < 64 { (comp.dx as u64) << rpx } else { 0 };
    let y_step: u64 = if rpy < 64 { (comp.dy as u64) << rpy } else { 0 };
    if x_step == 0 || y_step == 0 {
        return None;
    }
    if (y as u64) % y_step != 0 && y != ty0 {
        return None;
    }
    if (x as u64) % x_step != 0 && x != tx0 {
        return None;
    }
    let div_x: u64 = (comp.dx as u64) << levelno;
    let div_y: u64 = (comp.dy as u64) << levelno;
    if div_x == 0 || div_y == 0 {
        return None;
    }
    let trx0 = ceil_div_u64(tx0 as u64, div_x) as i64;
    let try0 = ceil_div_u64(ty0 as u64, div_y) as i64;
    let x_scaled = ceil_div_u64(x as u64, div_x) as i64;
    let y_scaled = ceil_div_u64(y as u64, div_y) as i64;
    let pdx = res.pdx;
    let pdy = res.pdy;
    assert(pdx < 64 && pdy < 64);
    assert(0 <= x_scaled <= 0xffff_ffff && 0 <= y_scaled <= 0xffff_ffff);
    assert(0 <= trx0 <= 0xffff_ffff && 0 <= try0 <= 0xffff_ffff);
    proof {
        lemma_i64_shr_bounds(x_scaled, pdx);
        lemma_i64_shr_bounds(y_scaled, pdy);
        lemma_i64_shr_bounds(trx0, pdx);
        lemma_i64_shr_bounds(try0, pdy);
    }
    let prci = (x_scaled >> pdx) - (trx0 >> pdx);
    let prcj = (y_scaled >> pdy) - (try0 >> pdy);
    if prci < 0 || prcj < 0 {
        return None;
    }
    proof {
        assert((prcj as u64 as int) * (res.pw as u64 as int) <= 0xffff_ffff * 0xffff_ffff) by (nonlinear_arith)
            requires
                0 <= prcj <= 0xffff_ffff,
                res.pw <= 0xffff_ffff,
        ;
    }
    let precno = prci as u64 + prcj as u64 * res.pw as u64;
    Some(#[verifier::truncate] (precno as u32))
}

/// Resolution, then position, component and layer.
pub fn pi_next_rpcl(pi: &mut PiIterator, visited: &mut [i16]) -> (r: bool)
    requires
        pi_wf(*old(pi)),
        old(pi).poc.prg == ProgressionOrder::Rpcl,
    ensures
        step_done(*old(pi), *final(pi), old(visited)@, final(visited)@, r),
        pos_step_complete(*old(pi), *final(pi), old(visited)@, final(visited)@, r),
{
    let ghost pi0 = *pi;
    let ghost v0 = visited@;
    let ghost can = pos_resumable(pi0, v0);
    let mut resuming = !pi.first;
    if pi.first {
        let (dx, dy) = compute_precinct_spacing(pi, pi.poc.resno0, pi.poc.resno1, pi.poc.compno0, pi.poc.compno1);
        if dx == 0 || dy == 0 {
            return false;
        }
        pi.dx = dx;
        pi.dy = dy;
        pi.first = false;
    }
    let ghost cfg = *pi;
    let ghost (kl, kr, kc, kx, ky) = (pi0.layno + 1, pi0.resno as int, pi0.compno as int, pi0.x as int, pi0.y as int);
    let ghost ys0 = cfg.poc.ty0 as u32 as int;
    let ghost xs0 = cfg.poc.tx0 as u32 as int;
    let ty1 = pi.poc.ty1 as u32;
    let tx1 = pi.poc.tx1 as u32;
    let resno_end = pi.poc.resno1;
    let mut resno = if resuming { pi.resno } else { pi.poc.resno0 };
    proof {
        if can && !resuming {
            assert(pos_done(cfg, v0, -1, resno as int, -1, -1, -1));
        }
    }
    while resno < resno_end
        invariant
            pi0 == *old(pi),
            v0 == old(visited)@,
            iter_inv(*pi, pi0, visited@, v0),
            pi.poc.prg == ProgressionOrder::Rpcl,
            ty1 == pi.poc.ty1 as u32 && tx1 == pi.poc.tx1 as u32,
            ty1 < 0x8000_0000 && tx1 < 0x8000_0000,
            pi.dx > 0 && pi.dy > 0,
            resno_end == pi.poc.resno1,
            same_config(cfg, pi0) && cfg.dx == pi.dx && cfg.dy == pi.dy && !cfg.first,
            can == pos_resumable(pi0, v0),
            kl == pi0.layno + 1 && kr == pi0.resno && kc == pi0.compno && kx == pi0.x && ky == pi0.y,
            ys0 == cfg.poc.ty0 as u32 && xs0 == cfg.poc.tx0 as u32,
            resuming ==> !pi0.first && cfg == pi0,
            can && resuming ==> resno == kr && pi.y == ky && pi.x == kx && pi.compno == kc && pi.layno + 1 == kl,
            can ==> (if resuming {
                pos_resumable(pi0, v0) && !pi0.first
            } else {
                pos_done(cfg, v0, -1, resno as int, -1, -1, -1)
            }),
        decreases resno_end - resno,
    {
        pi.resno = resno;
        let mut y = if resuming { pi.y } else { pi.poc.ty0 as u32 };
        proof {
            if can && !resuming {
                lemma_pos_skip(cfg, v0, (-1, resno as int, -1, -1, -1), (-1, resno as int, -1, -1, y as int));
            }
        }
        while y < ty1
            invariant
                pi0 == *old(pi),
                v0 == old(visited)@,
                iter_inv(*pi, pi0, visited@, v0),
                pi.poc.prg == ProgressionOrder::Rpcl,
                ty1 == pi.poc.ty1 as u32 && tx1 == pi.poc.tx1 as u32,
                ty1 < 0x8000_0000 && tx1 < 0x8000_0000,
                resno < resno_end,
                resno_end == pi.poc.resno1,
                pi.resno == resno,
                pi.dx > 0 && pi.dy > 0,
                same_config(cfg, pi0) && cfg.dx == pi.dx && cfg.dy == pi.dy && !cfg.first,
                can == pos_resumable(pi0, v0),
                kl == pi0.layno + 1 && kr == pi0.resno && kc == pi0.compno && kx == pi0.x && ky == pi0.y,
                ys0 == cfg.poc.ty0 as u32 && xs0 == cfg.poc.tx0 as u32,
                resuming ==> !pi0.first && cfg == pi0,
                can ==> ys0 <= y && (y == ys0 || (y as int) % (pi.dy as int) == 0),
                can && resuming ==> resno == kr && y == ky && pi.x == kx && pi.compno == kc && pi.layno + 1 == kl,
                can ==> (if resuming {
                    pos_resumable(pi0, v0) && !pi0.first
                } else {
                    pos_done(cfg, v0, -1, resno as int, -1, -1, y as int)
                }),
            decreases u32::MAX - y,
        {
            pi.y = y;
            let mut x = if resuming { pi.x } else { pi.poc.tx0 as u32 };
            proof {
                if can && !resuming {
                    lemma_pos_skip(cfg, v0, (-1, resno as int, -1, -1, y as int), (-1, resno as int, -1, x as int, y as int));
                }
            }
            while x < tx1
                invariant
                    pi0 == *old(pi),
                    v0 == old(visited)@,
                    iter_inv(*pi, pi0, visited@, v0),
                    pi.poc.prg == ProgressionOrder::Rpcl,
                    ty1 == pi.poc.ty1 as u32 && tx1 == pi.poc.tx1 as u32,
                    ty1 < 0x8000_0000 && tx1 < 0x8000_0000,
                    resno < resno_end,
                    resno_end == pi.poc.resno1,
                    pi.resno == resno,
                    y < ty1,
                    pi.y == y,
                    pi.dx > 0 && pi.dy > 0,
                    same_config(cfg, pi0) && cfg.dx == pi.dx && cfg.dy == pi.dy && !cfg.first,
                    can == pos_resumable(pi0, v0),
                    kl == pi0.layno + 1 && kr == pi0.resno && kc == pi0.compno && kx == pi0.x && ky == pi0.y,
                    ys0 == cfg.poc.ty0 as u32 && xs0 == cfg.poc.tx0 as u32,
                    resuming ==> !pi0.first && cfg == pi0,
                    can ==> ys0 <= y && (y == ys0 || (y as int) % (pi.dy as int) == 0),
                    can ==> xs0 <= x && (x == xs0 || (x as int) % (pi.dx as int) == 0),
                    can && resuming ==> resno == kr && y == ky && x == kx && pi.compno == kc && pi.layno + 1 == kl,
                    can ==> (if resuming {
                        pos_resumable(pi0, v0) && !pi0.first
                    } else {
                        pos_done(cfg, v0, -1, resno as int, -1, x as int, y as int)
                    }),
                decreases u32::MAX - x,
            {
                pi.x = x;
                let compno_end = pi.poc.compno1;
                let mut compno = if resuming { pi.compno } else { pi.poc.compno0 };
                proof {
                    if can && !resuming {
                        lemma_pos_skip(
                            cfg,
                            v0,
                            (-1, resno as int, -1, x as int, y as int),
                            (-1, resno as int, compno as int, x as int, y as int),
                        );
                    }
                }
                while compno < compno_end
                    invariant
                        pi0 == *old(pi),
                        v0 == old(visited)@,
                        iter_inv(*pi, pi0, visited@, v0),
                        pi.poc.prg == ProgressionOrder::Rpcl,
                        ty1 == pi.poc.ty1 as u32 && tx1 == pi.poc.tx1 as u32,
                        ty1 < 0x8000_0000 && tx1 < 0x8000_0000,
                        resno < resno_end,
                        resno_end == pi.poc.resno1,
                        pi.resno == resno,
                        y < ty1,
                        x < tx1,
                        pi.y == y && pi.x == x,
                        pi.dx > 0 && pi.dy > 0,
                        compno_end == pi.poc.compno1,
                        same_config(cfg, pi0) && cfg.dx == pi.dx && cfg.dy == pi.dy && !cfg.first,
                        can == pos_resumable(pi0, v0),
                        kl == pi0.layno + 1 && kr == pi0.resno && kc == pi0.compno && kx == pi0.x && ky == pi0.y,
                        ys0 == cfg.poc.ty0 as u32 && xs0 == cfg.poc.tx0 as u32,
                        resuming ==> !pi0.first && cfg == pi0,
                        can ==> ys0 <= y && (y == ys0 || (y as int) % (pi.dy as int) == 0),
                        can ==> xs0 <= x && (x == xs0 || (x as int) % (pi.dx as int) == 0),
                        can && resuming ==> resno == kr && y == ky && x == kx && compno == kc && pi.layno + 1 == kl,
                        can ==> (if resuming {
                            pos_resumable(pi0, v0) && !pi0.first
                        } else {
                            pos_done(cfg, v0, -1, resno as int, compno as int, x as int, y as int)
                        }),
                    decreases compno_end - compno,
                {
                    pi.compno = compno;
                    let ghost was_resuming = resuming;
                    if (compno as usize) < pi.comps.len() && resno < pi.comps[compno as usize].numresolutions {
                        proof {
                            assert(comp_wf(pi.comps@[compno as int]));
                            assert(res_wf(pi.comps@[compno as int].resolutions@[resno as int], pi.comps@[compno as int].numresolutions));
                        }
                        let pw = pi.comps[compno as usize].resolutions[resno as usize].pw;
                        let ph = pi.comps[compno as usize].resolutions[resno as usize].ph;
                        let found = compute_precinct_index(
                            &pi.comps[compno as usize],
                            &pi.comps[compno as usize].resolutions[resno as usize],
                            resno,
                            x,
                            y,
                            pi.tx0,
                            pi.ty0,
                        );
                        proof {
                            assert(found == pos_precinct(cfg, resno as int, compno as int, x as int, y as int));
                        }
                        let mut precno: u32 = 0;
                        let mut ok = false;
                        if let Some(p) = found {
                            if p < pw * ph {
                                precno = p;
                                ok = true;
                            }
                        }
                        if ok {
                            pi.precno = precno;
                            let layno_start = if resuming {
                                resuming = false;
                                pi.layno + 1
                            } else {
                                pi.poc.layno0
                            };
                            let layno_end = pi.poc.layno1;
                            proof {
                                if can && !was_resuming {
                                    lemma_pos_skip(
                                        cfg,
                                        v0,
                                        (-1, resno as int, compno as int, x as int, y as int),
                                        (layno_start as int, resno as int, compno as int, x as int, y as int),
                                    );
                                }
                                if can && was_resuming {
                                    assert(pos_done(cfg, v0, layno_start as int, resno as int, compno as int, x as int, y as int));
                                }
                            }
                            let ghost pi_before = *pi;
                            let outcome = scan_layers(pi, visited, layno_start, layno_end);
                            proof {
                                let hi = if outcome is Exhausted { layno_end as int } else { pi.layno as int };
                                assert forall|l: int| layno_start <= l < hi implies is_visited(
                                    cfg,
                                    v0,
                                    l,
                                    resno as int,
                                    compno as int,
                                    pos_precinct(cfg, resno as int, compno as int, x as int, y as int)->Some_0 as int,
                                ) by {
                                    assert(is_visited(pi_before, v0, l, resno as int, compno as int, precno as int));
                                }
                            }
                            match outcome {
                                Scan::Found => {
                                    proof {
                                        if can {
                                            let ghost ln = pi.layno as int;
                                            lemma_pos_layers(cfg, v0, resno as int, compno as int, x as int, y as int, layno_start as int, ln);
                                            lemma_pos_marked(cfg, v0, visited@, cur_index(*pi), (ln, resno as int, compno as int, x as int, y as int));
                                            assert(is_visited(cfg, visited@, ln, resno as int, compno as int, precno as int));
                                            lemma_pos_layers(cfg, visited@, resno as int, compno as int, x as int, y as int, ln, ln + 1);
                                            lemma_pos_config(cfg, *pi, visited@);
                                        }
                                    }
                                    return true;
                                },
                                Scan::OutOfRange => {
                                    proof {
                                        assert(packet_index(cfg, pi.layno as int, resno as int, compno as int, precno as int) >= v0.len());
                                        assert(pos_index_overflow(cfg, v0));
                                        lemma_pos_config(cfg, *pi, visited@);
                                    }
                                    return false;
                                },
                                Scan::Exhausted => {
                                    proof {
                                        if can {
                                            lemma_pos_layers(cfg, v0, resno as int, compno as int, x as int, y as int, layno_start as int, layno_end as int);
                                            lemma_pos_skip(
                                                cfg,
                                                v0,
                                                (layno_end as int, resno as int, compno as int, x as int, y as int),
                                                (-1, resno as int, compno + 1, x as int, y as int),
                                            );
                                        }
                                    }
                                },
                            }
                        } else {
                            proof {
                                if can {
                                    let ghost a = if was_resuming { (kl, kr, kc, kx, ky) } else { (-1, resno as int, compno as int, x as int, y as int) };
                                    lemma_pos_skip(cfg, v0, a, (-1, resno as int, compno + 1, x as int, y as int));
                                }
                            }
                            resuming = false;
                        }
                    } else {
                        proof {
                            if can {
                                let ghost a = if was_resuming { (kl, kr, kc, kx, ky) } else { (-1, resno as int, compno as int, x as int, y as int) };
                                lemma_pos_skip(cfg, v0, a, (-1, resno as int, compno + 1, x as int, y as int));
                            }
                        }
                        resuming = false;
                    }
                    compno += 1;
                }
                proof {
                    lemma_next_multiple(x, pi.dx);
                    if can {
                        assert(!resuming);
                        assert forall|l: int, r: int, c: int, xx: int, yy: int|
                            pos_packet(cfg, l, r, c, xx, yy) && pos_lt(cfg, l, r, c, xx, yy, -1, resno as int, -1, x + (pi.dx - x % pi.dx), y as int)
                            implies pos_lt(cfg, l, r, c, xx, yy, -1, resno as int, compno as int, x as int, y as int) by {
                            if r == resno && yy == y && xx > x {
                                lemma_scan_gap(x as int, xx, xs0, tx1 as int, pi.dx as int);
                            }
                        }
                        lemma_pos_skip(
                            cfg,
                            v0,
                            (-1, resno as int, compno as int, x as int, y as int),
                            (-1, resno as int, -1, x + (pi.dx - x % pi.dx), y as int),
                        );
                    }
                }
                x += pi.dx - (x % pi.dx);
            }
            proof {
                lemma_next_multiple(y, pi.dy);
                if can {
                    assert(!resuming);
                    assert forall|l: int, r: int, c: int, xx: int, yy: int|
                        pos_packet(cfg, l, r, c, xx, yy) && pos_lt(cfg, l, r, c, xx, yy, -1, resno as int, -1, -1, y + (pi.dy - y % pi.dy))
                        implies pos_lt(cfg, l, r, c, xx, yy, -1, resno as int, -1, x as int, y as int) by {
                        if r == resno && yy > y {
                            lemma_scan_gap(y as int, yy, ys0, ty1 as int, pi.dy as int);
                        }
                    }
                    lemma_pos_skip(
                        cfg,
                        v0,
                        (-1, resno as int, -1, x as int, y as int),
                        (-1, resno as int, -1, -1, y + (pi.dy - y % pi.dy)),
                    );
                }
            }
            y += pi.dy - (y % pi.dy);
        }
        proof {
            if can {
                assert(!resuming);
                lemma_pos_skip(cfg, v0, (-1, resno as int, -1, -1, y as int), (-1, resno + 1, -1, -1, -1));
            }
        }
        resno += 1;
    }
    proof {
        if can {
            assert(!resuming);
            assert forall|l: int, r: int, c: int, xx: int, yy: int| pos_packet(cfg, l, r, c, xx, yy) implies is_visited(
                cfg,
                v0,
                l,
                r,
                c,
                pos_precinct(cfg, r, c, xx, yy)->Some_0 as int,
            ) by {
                assert(pos_lt(cfg, l, r, c, xx, yy, -1, resno as int, -1, -1, -1));
            }
            lemma_pos_config(cfg, *pi, v0);
        }
    }
    false
}

/// Position, then component, resolution and layer.
pub fn pi_next_pcrl(pi: &mut PiIterator, visited: &mut [i16]) -> (r: bool)
    requires
        pi_wf(*old(pi)),
        old(pi).poc.prg == ProgressionOrder::Pcrl,
    ensures
        step_done(*old(pi), *final(pi), old(visited)@, final(visited)@, r),
        pos_step_complete(*old(pi), *final(pi), old(visited)@, final(visited)@, r),
{
    let ghost pi0 = *pi;
    let ghost v0 = visited@;
    let ghost can = pos_resumable(pi0, v0);
    let mut resuming = !pi.first;
    if pi.first {
        let (dx, dy) = compute_precinct_spacing(pi, pi.poc.resno0, pi.poc.resno1, pi.poc.compno0, pi.poc.compno1);
        if dx == 0 || dy == 0 {
            return false;
        }
        pi.dx = dx;
        pi.dy = dy;
        pi.first = false;
    }
    let ghost cfg = *pi;
    let ghost (kl, kr, kc, kx, ky) = (pi0.layno + 1, pi0.resno as int, pi0.compno as int, pi0.x as int, pi0.y as int);
    let ghost ys0 = cfg.poc.ty0 as u32 as int;
    let ghost xs0 = cfg.poc.tx0 as u32 as int;
    let ty1 = pi.poc.ty1 as u32;
    let tx1 = pi.poc.tx1 as u32;
    let mut y = if resuming { pi.y } else { pi.poc.ty0 as u32 };
    proof {
        if can && !resuming {
            assert(pos_done(cfg, v0, -1, -1, -1, -1, y as int));
        }
    }
    while y < ty1
        invariant
            pi0 == *old(pi),
            v0 == old(visited)@,
            iter_inv(*pi, pi0, visited@, v0),
            pi.poc.prg == ProgressionOrder::Pcrl,
            ty1 == pi.poc.ty1 as u32 && tx1 == pi.poc.tx1 as u32,
            ty1 < 0x8000_0000 && tx1 < 0x8000_0000,
            pi.dx > 0 && pi.dy > 0,
            same_config(cfg, pi0) && cfg.dx == pi.dx && cfg.dy == pi.dy && !cfg.first,
            can == pos_resumable(pi0, v0),
            kl == pi0.layno + 1 && kr == pi0.resno && kc == pi0.compno && kx == pi0.x && ky == pi0.y,
            ys0 == cfg.poc.ty0 as u32 && xs0 == cfg.poc.tx0 as u32,
            resuming ==> !pi0.first && cfg == pi0,
            can ==> ys0 <= y && (y == ys0 || (y as int) % (pi.dy as int) == 0),
            can && resuming ==> y == ky && pi.x == kx && pi.compno == kc && pi.resno == kr && pi.layno + 1 == kl,
            can ==> (if resuming {
                pos_resumable(pi0, v0) && !pi0.first
            } else {
                pos_done(cfg, v0, -1, -1, -1, -1, y as int)
            }),
        decreases u32::MAX - y,
    {
        pi.y = y;
        let mut x = if resuming { pi.x } else { pi.poc.tx0 as u32 };
        proof {
            if can && !resuming {
                lemma_pos_skip(cfg, v0, (-1, -1, -1, -1, y as int), (-1, -1, -1, x as int, y as int));
            }
        }
        while x < tx1
            invariant
                pi0 == *old(pi),
                v0 == old(visited)@,
                iter_inv(*pi, pi0, visited@, v0),
                pi.poc.prg == ProgressionOrder::Pcrl,
                ty1 == pi.poc.ty1 as u32 && tx1 == pi.poc.tx1 as u32,
                ty1 < 0x8000_0000 && tx1 < 0x8000_0000,
                pi.dx > 0 && pi.dy > 0,
                same_config(cfg, pi0) && cfg.dx == pi.dx && cfg.dy == pi.dy && !cfg.first,
                can == pos_resumable(pi0, v0),
                kl == pi0.layno + 1 && kr == pi0.resno && kc == pi0.compno && kx == pi0.x && ky == pi0.y,
                ys0 == cfg.poc.ty0 as u32 && xs0 == cfg.poc.tx0 as u32,
                resuming ==> !pi0.first && cfg == pi0,
                can ==> ys0 <= y && (y == ys0 || (y as int) % (pi.dy as int) == 0),

                y < ty1,
                pi.y == y,
                can ==> xs0 <= x && (x == xs0 || (x as int) % (pi.dx as int) == 0),
                can && resuming ==> y == ky && x == kx && pi.compno == kc && pi.resno == kr && pi.layno + 1 == kl,
                can ==> (if resuming {
                    pos_resumable(pi0, v0) && !pi0.first
                } else {
                    pos_done(cfg, v0, -1, -1, -1, x as int, y as int)
                }),
            decreases u32::MAX - x,
        {
            pi.x = x;
            let compno_end = pi.poc.compno1;
            let mut compno = if resuming { pi.compno } else { pi.poc.compno0 };
            proof {
                if can && !resuming {
                    lemma_pos_skip(cfg, v0, (-1, -1, -1, x as int, y as int), (-1, -1, compno as int, x as int, y as int));
                }
            }
            while compno < compno_end
                invariant
                    pi0 == *old(pi),
                    v0 == old(visited)@,
                    iter_inv(*pi, pi0, visited@, v0),
                    pi.poc.prg == ProgressionOrder::Pcrl,
                    ty1 == pi.poc.ty1 as u32 && tx1 == pi.poc.tx1 as u32,
                    ty1 < 0x8000_0000 && tx1 < 0x8000_0000,
                    pi.dx > 0 && pi.dy > 0,
                    same_config(cfg, pi0) && cfg.dx == pi.dx && cfg.dy == pi.dy && !cfg.first,
                    can == pos_resumable(pi0, v0),
                    kl == pi0.layno + 1 && kr == pi0.resno && kc == pi0.compno && kx == pi0.x && ky == pi0.y,
                    ys0 == cfg.poc.ty0 as u32 && xs0 == cfg.poc.tx0 as u32,
                    resuming ==> !pi0.first && cfg == pi0,
                    can ==> ys0 <= y && (y == ys0 || (y as int) % (pi.dy as int) == 0),

                    y < ty1,
                    x < tx1,
                    pi.y == y && pi.x == x,
                    compno_end == pi.poc.compno1,
                    can ==> xs0 <= x && (x == xs0 || (x as int) % (pi.dx as int) == 0),
                    can && resuming ==> y == ky && x == kx && compno == kc && pi.resno == kr && pi.layno + 1 == kl,
                    can ==> (if resuming {
                        pos_resumable(pi0, v0) && !pi0.first
                    } else {
                        pos_done(cfg, v0, -1, -1, compno as int, x as int, y as int)
                    }),
                decreases compno_end - compno,
            {
                pi.compno = compno;
                if (compno as usize) < pi.comps.len() {
                    let resno_end = pi.poc.resno1;
                    let mut resno = if resuming { pi.resno } else { pi.poc.resno0 };
                    proof {
                        if can && !resuming {
                            lemma_pos_skip(
                                cfg,
                                v0,
                                (-1, -1, compno as int, x as int, y as int),
                                (-1, resno as int, compno as int, x as int, y as int),
                            );
                        }
                    }
                    while resno < resno_end
                        invariant
                        pi0 == *old(pi),
                        v0 == old(visited)@,
                        iter_inv(*pi, pi0, visited@, v0),
                        pi.poc.prg == ProgressionOrder::Pcrl,
                        ty1 == pi.poc.ty1 as u32 && tx1 == pi.poc.tx1 as u32,
                        ty1 < 0x8000_0000 && tx1 < 0x8000_0000,
                        pi.dx > 0 && pi.dy > 0,
                        same_config(cfg, pi0) && cfg.dx == pi.dx && cfg.dy == pi.dy && !cfg.first,
                        can == pos_resumable(pi0, v0),
                        kl == pi0.layno + 1 && kr == pi0.resno && kc == pi0.compno && kx == pi0.x && ky == pi0.y,
                        ys0 == cfg.poc.ty0 as u32 && xs0 == cfg.poc.tx0 as u32,
                        resuming ==> !pi0.first && cfg == pi0,
                        can ==> ys0 <= y && (y == ys0 || (y as int) % (pi.dy as int) == 0),

                        y < ty1,
                        x < tx1,
                        pi.y == y && pi.x == x,
                        compno < compno_end,
                        compno_end == pi.poc.compno1,
                        (compno as int) < pi.comps@.len(),
                        pi.compno == compno,
                        resno_end == pi.poc.resno1,
                        can ==> xs0 <= x && (x == xs0 || (x as int) % (pi.dx as int) == 0),
                        can && resuming ==> y == ky && x == kx && compno == kc && resno == kr && pi.layno + 1 == kl,
                        can ==> (if resuming {
                            pos_resumable(pi0, v0) && !pi0.first
                        } else {
                            pos_done(cfg, v0, -1, resno as int, compno as int, x as int, y as int)
                        }),
                    decreases resno_end - resno,
                {
                    pi.resno = resno;
                    let ghost was_resuming = resuming;
                    if resno < pi.comps[compno as usize].numresolutions {
                        proof {
                            assert(comp_wf(pi.comps@[compno as int]));
                            assert(res_wf(pi.comps@[compno as int].resolutions@[resno as int], pi.comps@[compno as int].numresolutions));
                        }
                        let pw = pi.comps[compno as usize].resolutions[resno as usize].pw;
                        let ph = pi.comps[compno as usize].resolutions[resno as usize].ph;
                        let found = compute_precinct_index(
                            &pi.comps[compno as usize],
                            &pi.comps[compno as usize].resolutions[resno as usize],
                            resno,
                            x,
                            y,
                            pi.tx0,
                            pi.ty0,
                        );
                        proof {
                            assert(found == pos_precinct(cfg, resno as int, compno as int, x as int, y as int));
                        }
                        let mut precno: u32 = 0;
                        let mut ok = false;
                        if let Some(p) = found {
                            if p < pw * ph {
                                precno = p;
                                ok = true;
                            }
                        }
                        if ok {
                            pi.precno = precno;
                            let layno_start = if resuming {
                                resuming = false;
                                pi.layno + 1
                            } else {
                                pi.poc.layno0
                            };
                            let layno_end = pi.poc.layno1;
                            proof {
                                if can && !was_resuming {
                                    lemma_pos_skip(
                                        cfg,
                                        v0,
                                        (-1, resno as int, compno as int, x as int, y as int),
                                        (layno_start as int, resno as int, compno as int, x as int, y as int),
                                    );
                                }
                            }
                            let ghost pi_before = *pi;
                            let outcome = scan_layers(pi, visited, layno_start, layno_end);
                            proof {
                                let hi = if outcome is Exhausted { layno_end as int } else { pi.layno as int };
                                assert forall|l: int| layno_start <= l < hi implies is_visited(
                                    cfg,
                                    v0,
                                    l,
                                    resno as int,
                                    compno as int,
                                    pos_precinct(cfg, resno as int, compno as int, x as int, y as int)->Some_0 as int,
                                ) by {
                                    assert(is_visited(pi_before, v0, l, resno as int, compno as int, precno as int));
                                }
                            }
                            match outcome {
                                Scan::Found => {
                                    proof {
                                        if can {
                                            let ghost ln = pi.layno as int;
                                            lemma_pos_layers(cfg, v0, resno as int, compno as int, x as int, y as int, layno_start as int, ln);
                                            lemma_pos_marked(cfg, v0, visited@, cur_index(*pi), (ln, resno as int, compno as int, x as int, y as int));
                                            assert(is_visited(cfg, visited@, ln, resno as int, compno as int, precno as int));
                                            lemma_pos_layers(cfg, visited@, resno as int, compno as int, x as int, y as int, ln, ln + 1);
                                            lemma_pos_config(cfg, *pi, visited@);
                                        }
                                    }
                                    return true;
                                },
                                Scan::OutOfRange => {
                                    proof {
                                        assert(packet_index(cfg, pi.layno as int, resno as int, compno as int, precno as int) >= v0.len());
                                        assert(pos_index_overflow(cfg, v0));
                                        lemma_pos_config(cfg, *pi, visited@);
                                    }
                                    return false;
                                },
                                Scan::Exhausted => {
                                    proof {
                                        if can {
                                            lemma_pos_layers(cfg, v0, resno as int, compno as int, x as int, y as int, layno_start as int, layno_end as int);
                                            lemma_pos_skip(
                                                cfg,
                                                v0,
                                                (layno_end as int, resno as int, compno as int, x as int, y as int),
                                                (-1, resno + 1, compno as int, x as int, y as int),
                                            );
                                        }
                                    }
                                },
                            }
                        } else {
                            proof {
                                if can {
                                    let ghost a = if was_resuming { (kl, kr, kc, kx, ky) } else { (-1, resno as int, compno as int, x as int, y as int) };
                                    lemma_pos_skip(cfg, v0, a, (-1, resno + 1, compno as int, x as int, y as int));
                                }
                            }
                            resuming = false;
                        }
                    } else {
                        proof {
                            if can {
                                let ghost a = if was_resuming { (kl, kr, kc, kx, ky) } else { (-1, resno as int, compno as int, x as int, y as int) };
                                lemma_pos_skip(cfg, v0, a, (-1, resno + 1, compno as int, x as int, y as int));
                            }
                        }
                        resuming = false;
                    }
                    resno += 1;
                }
                proof {
                    if can {
                        assert(!resuming);
                        lemma_pos_skip(
                            cfg,
                            v0,
                            (-1, resno as int, compno as int, x as int, y as int),
                            (-1, -1, compno + 1, x as int, y as int),
                        );
                    }
                }
                } else {
                    proof {
                        if can {
                            let ghost a = if resuming { (kl, kr, kc, kx, ky) } else { (-1, -1, compno as int, x as int, y as int) };
                            lemma_pos_skip(cfg, v0, a, (-1, -1, compno + 1, x as int, y as int));
                        }
                    }
                    resuming = false;
                }
                compno += 1;
            }
            proof {
                lemma_next_multiple(x, pi.dx);
                if can {
                    assert(!resuming);
                    assert forall|l: int, r: int, c: int, xx: int, yy: int|
                        pos_packet(cfg, l, r, c, xx, yy) && pos_lt(cfg, l, r, c, xx, yy, -1, -1, -1, x + (pi.dx - x % pi.dx), y as int)
                        implies pos_lt(cfg, l, r, c, xx, yy, -1, -1, compno as int, x as int, y as int) by {
                        if yy == y && xx > x {
                            lemma_scan_gap(x as int, xx, xs0, tx1 as int, pi.dx as int);
                        }
                    }
                    lemma_pos_skip(
                        cfg,
                        v0,
                        (-1, -1, compno as int, x as int, y as int),
                        (-1, -1, -1, x + (pi.dx - x % pi.dx), y as int),
                    );
                }
            }
            x += pi.dx - (x % pi.dx);
        }
        proof {
            lemma_next_multiple(y, pi.dy);
            if can {
                assert(!resuming);
                assert forall|l: int, r: int, c: int, xx: int, yy: int|
                    pos_packet(cfg, l, r, c, xx, yy) && pos_lt(cfg, l, r, c, xx, yy, -1, -1, -1, -1, y + (pi.dy - y % pi.dy))
                    implies pos_lt(cfg, l, r, c, xx, yy, -1, -1, -1, x as int, y as int) by {
                    if yy > y {
                        lemma_scan_gap(y as int, yy, ys0, ty1 as int, pi.dy as int);
                    }
                }
                lemma_pos_skip(
                    cfg,
                    v0,
                    (-1, -1, -1, x as int, y as int),
                    (-1, -1, -1, -1, y + (pi.dy - y % pi.dy)),
                );
            }
        }
        y += pi.dy - (y % pi.dy);
    }
    proof {
        if can {
            assert(!resuming);
            assert forall|l: int, r: int, c: int, xx: int, yy: int| pos_packet(cfg, l, r, c, xx, yy) implies is_visited(
                cfg,
                v0,
                l,
                r,
                c,
                pos_precinct(cfg, r, c, xx, yy)->Some_0 as int,
            ) by {
                assert(pos_lt(cfg, l, r, c, xx, yy, -1, -1, -1, -1, y as int));
            }
            lemma_pos_config(cfg, *pi, v0);
        }
    }
    false
}

/// Component, then position, resolution and layer.
pub fn pi_next_cprl(pi: &mut PiIterator, visited: &mut [i16]) -> (r: bool)
    requires
        pi_wf(*old(pi)),
        old(pi).poc.prg == ProgressionOrder::Cprl,
    ensures
        step_done(*old(pi), *final(pi), old(visited)@, final(visited)@, r),
        pos_step_complete(*old(pi), *final(pi), old(visited)@, final(visited)@, r),
{
    let ghost pi0 = *pi;
    let ghost v0 = visited@;
    let ghost can = pos_resumable(pi0, v0);
    let mut resuming = !pi.first;
    if pi.first {
        pi.first = false;
    }
    let ghost cfg = *pi;
    let ghost (kl, kr, kc, kx, ky) = (pi0.layno + 1, pi0.resno as int, pi0.compno as int, pi0.x as int, pi0.y as int);
    let ghost ys0 = cfg.poc.ty0 as u32 as int;
    let ghost xs0 = cfg.poc.tx0 as u32 as int;
    proof {
        lemma_spacing_config(pi0, cfg);
    }
    let ty1 = pi.poc.ty1 as u32;
    let tx1 = pi.poc.tx1 as u32;
    let compno_end = pi.poc.compno1;
    let mut compno = if resuming { pi.compno } else { pi.poc.compno0 };
    proof {
        if can && !resuming {
            assert(pos_done(cfg, v0, -1, -1, compno as int, -1, -1));
        }
    }
    while compno < compno_end
        invariant
            pi0 == *old(pi),
            v0 == old(visited)@,
            iter_inv(*pi, pi0, visited@, v0),
            pi.poc.prg == ProgressionOrder::Cprl,
            ty1 == pi.poc.ty1 as u32 && tx1 == pi.poc.tx1 as u32,
            ty1 < 0x8000_0000 && tx1 < 0x8000_0000,
            compno_end == pi.poc.compno1,
            same_config(cfg, pi0) && !cfg.first,
            can == pos_resumable(pi0, v0),
            kl == pi0.layno + 1 && kr == pi0.resno && kc == pi0.compno && kx == pi0.x && ky == pi0.y,
            ys0 == cfg.poc.ty0 as u32 && xs0 == cfg.poc.tx0 as u32,
            resuming ==> !pi0.first && same_config(cfg, pi0),
            forall|c: int| #[trigger] spacing_of(pi0, c) == spacing_of(cfg, c),
            can && resuming ==> compno == kc && pi.y == ky && pi.x == kx && pi.resno == kr && pi.layno + 1 == kl,
            can ==> (if resuming {
                pos_resumable(pi0, v0) && !pi0.first
            } else {
                pos_done(cfg, v0, -1, -1, compno as int, -1, -1)
            }),
        decreases compno_end - compno,
    {
        pi.compno = compno;
        if (compno as usize) < pi.comps.len() {
            let (dx, dy) = compute_precinct_spacing(pi, pi.poc.resno0, pi.poc.resno1, compno, compno + 1);
            proof {
                lemma_spacing_over_config(*pi, cfg, pi.poc.resno0 as int, pi.poc.resno1 as int, compno as int, compno + 1, (0u32, 0u32));
                assert((dx, dy) == spacing_of(cfg, compno as int));
            }
            if dx == 0 || dy == 0 {
                proof {
                    if can {
                        let ghost a = if resuming { (kl, kr, kc, kx, ky) } else { (-1, -1, compno as int, -1, -1) };
                        lemma_pos_skip(cfg, v0, a, (-1, -1, compno + 1, -1, -1));
                    }
                }
                resuming = false;
            } else {
                pi.dx = dx;
                pi.dy = dy;
                let mut y = if resuming { pi.y } else { pi.poc.ty0 as u32 };
                proof {
                    if can && !resuming {
                        lemma_pos_skip(cfg, v0, (-1, -1, compno as int, -1, -1), (-1, -1, compno as int, -1, y as int));
                    }
                }
                while y < ty1
                    invariant
                    pi0 == *old(pi),
                    v0 == old(visited)@,
                    iter_inv(*pi, pi0, visited@, v0),
                    pi.poc.prg == ProgressionOrder::Cprl,
                    ty1 == pi.poc.ty1 as u32 && tx1 == pi.poc.tx1 as u32,
                    ty1 < 0x8000_0000 && tx1 < 0x8000_0000,
                    compno_end == pi.poc.compno1,
                    same_config(cfg, pi0) && !cfg.first,
                    can == pos_resumable(pi0, v0),
                    kl == pi0.layno + 1 && kr == pi0.resno && kc == pi0.compno && kx == pi0.x && ky == pi0.y,
                    ys0 == cfg.poc.ty0 as u32 && xs0 == cfg.poc.tx0 as u32,
                    resuming ==> !pi0.first && same_config(cfg, pi0),
                    compno < compno_end,
                    (compno as int) < pi.comps@.len(),
                    pi.compno == compno,
                    pi.dx > 0 && pi.dy > 0,
                    (pi.dx, pi.dy) == spacing_of(cfg, compno as int),
                    can ==> ys0 <= y && (y == ys0 || (y as int) % (pi.dy as int) == 0),
                        forall|c: int| #[trigger] spacing_of(pi0, c) == spacing_of(cfg, c),
                        can && resuming ==> compno == kc && y == ky && pi.x == kx && pi.resno == kr && pi.layno + 1 == kl,
                        can ==> (if resuming {
                            pos_resumable(pi0, v0) && !pi0.first
                        } else {
                            pos_done(cfg, v0, -1, -1, compno as int, -1, y as int)
                        }),
                    decreases u32::MAX - y,
                {
                    pi.y = y;
                    let mut x = if resuming { pi.x } else { pi.poc.tx0 as u32 };
                    proof {
                        if can && !resuming {
                            lemma_pos_skip(cfg, v0, (-1, -1, compno as int, -1, y as int), (-1, -1, compno as int, x as int, y as int));
                        }
                    }
                    while x < tx1
                        invariant
                        pi0 == *old(pi),
                        v0 == old(visited)@,
                        iter_inv(*pi, pi0, visited@, v0),
                        pi.poc.prg == ProgressionOrder::Cprl,
                        ty1 == pi.poc.ty1 as u32 && tx1 == pi.poc.tx1 as u32,
                        ty1 < 0x8000_0000 && tx1 < 0x8000_0000,
                        compno_end == pi.poc.compno1,
                        same_config(cfg, pi0) && !cfg.first,
                        can == pos_resumable(pi0, v0),
                        kl == pi0.layno + 1 && kr == pi0.resno && kc == pi0.compno && kx == pi0.x && ky == pi0.y,
                        ys0 == cfg.poc.ty0 as u32 && xs0 == cfg.poc.tx0 as u32,
                        resuming ==> !pi0.first && same_config(cfg, pi0),
                        compno < compno_end,
                        (compno as int) < pi.comps@.len(),
                        pi.compno == compno,
                        pi.dx > 0 && pi.dy > 0,
                        (pi.dx, pi.dy) == spacing_of(cfg, compno as int),
                        can ==> ys0 <= y && (y == ys0 || (y as int) % (pi.dy as int) == 0),
                            forall|c: int| #[trigger] spacing_of(pi0, c) == spacing_of(cfg, c),
                            y < ty1,
                            pi.y == y,
                            can ==> xs0 <= x && (x == xs0 || (x as int) % (pi.dx as int) == 0),
                            can && resuming ==> compno == kc && y == ky && x == kx && pi.resno == kr && pi.layno + 1 == kl,
                            can ==> (if resuming {
                                pos_resumable(pi0, v0) && !pi0.first
                            } else {
                                pos_done(cfg, v0, -1, -1, compno as int, x as int, y as int)
                            }),
                        decreases u32::MAX - x,
                    {
                        pi.x = x;
                        let resno_end = pi.poc.resno1;
                        let mut resno = if resuming { pi.resno } else { pi.poc.resno0 };
                        proof {
                            if can && !resuming {
                                lemma_pos_skip(
                                    cfg,
                                    v0,
                                    (-1, -1, compno as int, x as int, y as int),
                                    (-1, resno as int, compno as int, x as int, y as int),
                                );
                            }
                        }
                        while resno < resno_end
                            invariant
                            pi0 == *old(pi),
                            v0 == old(visited)@,
                            iter_inv(*pi, pi0, visited@, v0),
                            pi.poc.prg == ProgressionOrder::Cprl,
                            ty1 == pi.poc.ty1 as u32 && tx1 == pi.poc.tx1 as u32,
                            ty1 < 0x8000_0000 && tx1 < 0x8000_0000,
                            compno_end == pi.poc.compno1,
                            same_config(cfg, pi0) && !cfg.first,
                            can == pos_resumable(pi0, v0),
                            kl == pi0.layno + 1 && kr == pi0.resno && kc == pi0.compno && kx == pi0.x && ky == pi0.y,
                            ys0 == cfg.poc.ty0 as u32 && xs0 == cfg.poc.tx0 as u32,
                            resuming ==> !pi0.first && same_config(cfg, pi0),
                            compno < compno_end,
                            (compno as int) < pi.comps@.len(),
                            pi.compno == compno,
                            pi.dx > 0 && pi.dy > 0,
                            (pi.dx, pi.dy) == spacing_of(cfg, compno as int),
                            can ==> ys0 <= y && (y == ys0 || (y as int) % (pi.dy as int) == 0),
                                forall|c: int| #[trigger] spacing_of(pi0, c) == spacing_of(cfg, c),
                                y < ty1,
                                x < tx1,
                                pi.y == y && pi.x == x,
                                resno_end == pi.poc.resno1,
                                can ==> xs0 <= x && (x == xs0 || (x as int) % (pi.dx as int) == 0),
                                can && resuming ==> compno == kc && y == ky && x == kx && resno == kr && pi.layno + 1 == kl,
                                can ==> (if resuming {
                                    pos_resumable(pi0, v0) && !pi0.first
                                } else {
                                    pos_done(cfg, v0, -1, resno as int, compno as int, x as int, y as int)
                                }),
                            decreases resno_end - resno,
                        {
                            pi.resno = resno;
                            let ghost was_resuming = resuming;
                            if resno < pi.comps[compno as usize].numresolutions {
                                proof {
                                    assert(comp_wf(pi.comps@[compno as int]));
                                    assert(res_wf(pi.comps@[compno as int].resolutions@[resno as int], pi.comps@[compno as int].numresolutions));
                                }
                                let pw = pi.comps[compno as usize].resolutions[resno as usize].pw;
                                let ph = pi.comps[compno as usize].resolutions[resno as usize].ph;
                                let found = compute_precinct_index(
                                    &pi.comps[compno as usize],
                                    &pi.comps[compno as usize].resolutions[resno as usize],
                                    resno,
                                    x,
                                    y,
                                    pi.tx0,
                                    pi.ty0,
                                );
                                proof {
                                    assert(found == pos_precinct(cfg, resno as int, compno as int, x as int, y as int));
                                }
                                let mut precno: u32 = 0;
                                let mut ok = false;
                                if let Some(p) = found {
                                    if p < pw * ph {
                                        precno = p;
                                        ok = true;
                                    }
                                }
                                if ok {
                                    pi.precno = precno;
                                    let layno_start = if resuming {
                                        resuming = false;
                                        pi.layno + 1
                                    } else {
                                        pi.poc.layno0
                                    };
                                    let layno_end = pi.poc.layno1;
                                    proof {
                                        if can && !was_resuming {
                                            lemma_pos_skip(
                                                cfg,
                                                v0,
                                                (-1, resno as int, compno as int, x as int, y as int),
                                                (layno_start as int, resno as int, compno as int, x as int, y as int),
                                            );
                                        }
                                        if can && was_resuming {
                                            assert(pos_done(pi0, v0, kl, kr, kc, kx, ky));
                                            lemma_pos_config(pi0, cfg, v0);
                                        }
                                    }
                                    let ghost pi_before = *pi;
                                    let outcome = scan_layers(pi, visited, layno_start, layno_end);
                                    proof {
                                        let hi = if outcome is Exhausted { layno_end as int } else { pi.layno as int };
                                        assert forall|l: int| layno_start <= l < hi implies is_visited(
                                            cfg,
                                            v0,
                                            l,
                                            resno as int,
                                            compno as int,
                                            pos_precinct(cfg, resno as int, compno as int, x as int, y as int)->Some_0 as int,
                                        ) by {
                                            assert(is_visited(pi_before, v0, l, resno as int, compno as int, precno as int));
                                        }
                                    }
                                    match outcome {
                                        Scan::Found => {
                                            proof {
                                                if can {
                                                    let ghost ln = pi.layno as int;
                                                    lemma_pos_layers(cfg, v0, resno as int, compno as int, x as int, y as int, layno_start as int, ln);
                                                    lemma_pos_marked(cfg, v0, visited@, cur_index(*pi), (ln, resno as int, compno as int, x as int, y as int));
                                                    assert(is_visited(cfg, visited@, ln, resno as int, compno as int, precno as int));
                                                    lemma_pos_layers(cfg, visited@, resno as int, compno as int, x as int, y as int, ln, ln + 1);
                                                    lemma_pos_config(cfg, *pi, visited@);
                                                    lemma_spacing_config(cfg, *pi);
                                                }
                                            }
                                            return true;
                                        },
                                        Scan::OutOfRange => {
                                            proof {
                                                assert(packet_index(cfg, pi.layno as int, resno as int, compno as int, precno as int) >= v0.len());
                                                assert(pos_index_overflow(cfg, v0));
                                                lemma_pos_config(cfg, *pi, visited@);
                                            }
                                            return false;
                                        },
                                        Scan::Exhausted => {
                                            proof {
                                                if can {
                                                    lemma_pos_layers(cfg, v0, resno as int, compno as int, x as int, y as int, layno_start as int, layno_end as int);
                                                    lemma_pos_skip(
                                                        cfg,
                                                        v0,
                                                        (layno_end as int, resno as int, compno as int, x as int, y as int),
                                                        (-1, resno + 1, compno as int, x as int, y as int),
                                                    );
                                                }
                                            }
                                        },
                                    }
                                } else {
                                    proof {
                                        if can {
                                            if was_resuming {
                                                lemma_pos_config(pi0, cfg, v0);
                                            }
                                            let ghost a = if was_resuming { (kl, kr, kc, kx, ky) } else { (-1, resno as int, compno as int, x as int, y as int) };
                                            lemma_pos_skip(cfg, v0, a, (-1, resno + 1, compno as int, x as int, y as int));
                                        }
                                    }
                                    resuming = false;
                                }
                            } else {
                                proof {
                                    if can {
                                        if was_resuming {
                                            lemma_pos_config(pi0, cfg, v0);
                                        }
                                        let ghost a = if was_resuming { (kl, kr, kc, kx, ky) } else { (-1, resno as int, compno as int, x as int, y as int) };
                                        lemma_pos_skip(cfg, v0, a, (-1, resno + 1, compno as int, x as int, y as int));
                                    }
                                }
                                resuming = false;
                            }
                            resno += 1;
                        }
                        proof {
                            lemma_next_multiple(x, pi.dx);
                            if can {
                                assert(!resuming);
                                assert forall|l: int, r: int, c: int, xx: int, yy: int|
                                    pos_packet(cfg, l, r, c, xx, yy) && pos_lt(cfg, l, r, c, xx, yy, -1, -1, compno as int, x + (pi.dx - x % pi.dx), y as int)
                                    implies pos_lt(cfg, l, r, c, xx, yy, -1, resno as int, compno as int, x as int, y as int) by {
                                    if c == compno && yy == y && xx > x {
                                        lemma_scan_gap(x as int, xx, xs0, tx1 as int, pi.dx as int);
                                    }
                                }
                                lemma_pos_skip(
                                    cfg,
                                    v0,
                                    (-1, resno as int, compno as int, x as int, y as int),
                                    (-1, -1, compno as int, x + (pi.dx - x % pi.dx), y as int),
                                );
                            }
                        }
                        x += pi.dx - (x % pi.dx);
                    }
                    proof {
                        lemma_next_multiple(y, pi.dy);
                        if can {
                            assert(!resuming);
                            assert forall|l: int, r: int, c: int, xx: int, yy: int|
                                pos_packet(cfg, l, r, c, xx, yy) && pos_lt(cfg, l, r, c, xx, yy, -1, -1, compno as int, -1, y + (pi.dy - y % pi.dy))
                                implies pos_lt(cfg, l, r, c, xx, yy, -1, -1, compno as int, x as int, y as int) by {
                                if c == compno && yy > y {
                                    lemma_scan_gap(y as int, yy, ys0, ty1 as int, pi.dy as int);
                                }
                            }
                            lemma_pos_skip(
                                cfg,
                                v0,
                                (-1, -1, compno as int, x as int, y as int),
                                (-1, -1, compno as int, -1, y + (pi.dy - y % pi.dy)),
                            );
                        }
                    }
                    y += pi.dy - (y % pi.dy);
                }
                proof {
                    if can {
                        assert(!resuming);
                        lemma_pos_skip(cfg, v0, (-1, -1, compno as int, -1, y as int), (-1, -1, compno + 1, -1, -1));
                    }
                }
            }
        } else {
            proof {
                if can {
                    if resuming {
                        lemma_pos_config(pi0, cfg, v0);
                    }
                    let ghost a = if resuming { (kl, kr, kc, kx, ky) } else { (-1, -1, compno as int, -1, -1) };
                    lemma_pos_skip(cfg, v0, a, (-1, -1, compno + 1, -1, -1));
                }
            }
            resuming = false;
        }
        compno += 1;
    }
    proof {
        if can {
            assert(!resuming);
            assert forall|l: int, r: int, c: int, xx: int, yy: int| pos_packet(cfg, l, r, c, xx, yy) implies is_visited(
                cfg,
                v0,
                l,
                r,
                c,
                pos_precinct(cfg, r, c, xx, yy)->Some_0 as int,
            ) by {
                assert(pos_lt(cfg, l, r, c, xx, yy, -1, -1, compno as int, -1, -1));
            }
            lemma_pos_config(cfg, *pi, v0);
        }
    }
    false
}

/// Advances the iterator to the next packet, in its progression order, that the visited
/// record does not hold yet, marks it visited and returns `true`; returns `false`, leaving
/// the record as it was, when no such packet is left. In every order, a call on an
/// iterator that has not started or that stands on a packet after all the packets before
/// it were marked leaves the iterator so again when it returns a packet,
/// and when it returns none, every packet of the progression is marked (unless the record
/// is too short for the packets in range, or, in the position-driven orders, the
/// components give no precinct spacing).
pub fn pi_next(pi: &mut PiIterator, visited: &mut [i16]) -> (r: bool)
    requires
        pi_wf(*old(pi)),
    ensures
        step_done(*old(pi), *final(pi), old(visited)@, final(visited)@, r),
        old(pi).poc.prg == ProgressionOrder::Lrcp || old(pi).poc.prg == ProgressionOrder::Rlcp ==> step_complete(
            *old(pi),
            *final(pi),
            old(visited)@,
            final(visited)@,
            r,
        ),
        old(pi).poc.prg == ProgressionOrder::Rpcl || old(pi).poc.prg == ProgressionOrder::Pcrl
            || old(pi).poc.prg == ProgressionOrder::Cprl ==> pos_step_complete(
            *old(pi),
            *final(pi),
            old(visited)@,
            final(visited)@,
            r,
        ),
{
    match pi.poc.prg {
        ProgressionOrder::Lrcp => pi_next_lrcp(pi, visited),
        ProgressionOrder::Rlcp => pi_next_rlcp(pi, visited),
        ProgressionOrder::Rpcl => pi_next_rpcl(pi, visited),
        ProgressionOrder::Pcrl => pi_next_pcrl(pi, visited),
        ProgressionOrder::Cprl => pi_next_cprl(pi, visited),
    }
}

/// The total number of packets of a tile, `numlayers * max_prec * numcomps * max_res`,
/// saturating at the largest `u32`.
pub fn get_encoding_packet_count(numlayers: u32, numcomps: u32, max_res: u32, max_prec: u32) -> (r: u32)
    ensures
        r == (if numlayers * max_prec * numcomps * max_res > u32::MAX {
            u32::MAX as int
        } else {
            numlayers * max_prec * numcomps * max_res
        }),
{
    let a = sat_mul(numlayers, max_prec);
    let b = sat_mul(a, numcomps);
    let c = sat_mul(b, max_res);
    proof {
        lemma_sat_mul_chain(numlayers as int, max_prec as int, numcomps as int, max_res as int);
    }
    c
}

/// `a * b`, saturating at the largest `u32`.
fn sat_mul(a: u32, b: u32) -> (r: u32)
    ensures
        r == (if a * b > u32::MAX { u32::MAX as int } else { a * b }),
{
    match a.checked_mul(b) {
        Some(v) => v,
        None => u32::MAX,
    }
}

proof fn lemma_sat_mul_chain(a: int, b: int, c: int, d: int)
    requires
        0 <= a <= u32::MAX,
        0 <= b <= u32::MAX,
        0 <= c <= u32::MAX,
        0 <= d <= u32::MAX,
    ensures
        ({
            let m = u32::MAX as int;
            let s1 = if a * b > m { m } else { a * b };
            let s2 = if s1 * c > m { m } else { s1 * c };
            let s3 = if s2 * d > m { m } else { s2 * d };
            s3 == if a * b * c * d > m { m } else { a * b * c * d }
        }),
{
    let m = u32::MAX as int;
    assert(a * b * c * d == ((a * b) * c) * d) by (nonlinear_arith);
    if a * b > m {
        if c == 0 || d == 0 {
            assert(a * b * c * d == 0) by (nonlinear_arith)
                requires
                    c == 0 || d == 0,
            ;
        } else {
            assert(a * b * c * d >= a * b) by (nonlinear_arith)
                requires
                    c >= 1,
                    d >= 1,
                    a >= 0,
                    b >= 0,
            ;
            assert(m * c >= m) by (nonlinear_arith)
                requires
                    c >= 1,
                    m >= 0,
            ;
            assert(m * d >= m) by (nonlinear_arith)
                requires
                    d >= 1,
                    m >= 0,
            ;
        }
    } else if a * b * c > m {
        if d == 0 {
            assert(a * b * c * d == 0) by (nonlinear_arith)
                requires
                    d == 0,
            ;
        } else {
            assert(a * b * c * d >= a * b * c) by (nonlinear_arith)
                requires
                    d >= 1,
                    a * b * c >= 0,
            ;
            assert(m * d >= m) by (nonlinear_arith)
                requires
                    d >= 1,
                    m >= 0,
            ;
        }
    }
}

impl PacketIterators {
    /// Every iterator is well formed.
    pub open spec fn wf(&self) -> bool {
        forall|i: int| 0 <= i < self.iterators@.len() ==> #[trigger] pi_wf(self.iterators@[i])
    }

    /// Advances iterator `pino` to its next packet not visited yet (see [`pi_next`]);
    /// `false` when there is no iterator `pino`.
    pub fn next(&mut self, pino: usize) -> (r: bool)
        requires
            old(self).wf(),
        ensures
            final(self).wf(),
            final(self).iterators@.len() == old(self).iterators@.len(),
            pino >= old(self).iterators@.len() ==> !r && final(self).iterators@ == old(self).iterators@
                && final(self).visited@ == old(self).visited@,
            pino < old(self).iterators@.len() ==> {
                &&& final(self).iterators@ == old(self).iterators@.update(
                    pino as int,
                    final(self).iterators@[pino as int],
                )
                &&& step_done(
                    old(self).iterators@[pino as int],
                    final(self).iterators@[pino as int],
                    old(self).visited@,
                    final(self).visited@,
                    r,
                )
                &&& (old(self).iterators@[pino as int].poc.prg == ProgressionOrder::Lrcp
                    || old(self).iterators@[pino as int].poc.prg == ProgressionOrder::Rlcp) ==> step_complete(
                    old(self).iterators@[pino as int],
                    final(self).iterators@[pino as int],
                    old(self).visited@,
                    final(self).visited@,
                    r,
                )
                &&& (old(self).iterators@[pino as int].poc.prg == ProgressionOrder::Rpcl
                    || old(self).iterators@[pino as int].poc.prg == ProgressionOrder::Pcrl
                    || old(self).iterators@[pino as int].poc.prg == ProgressionOrder::Cprl) ==> pos_step_complete(
                    old(self).iterators@[pino as int],
                    final(self).iterators@[pino as int],
                    old(self).visited@,
                    final(self).visited@,
                    r,
                )
            },
    {
        if pino >= self.iterators.len() {
            return false;
        }
        proof {
            assert(pi_wf(self.iterators@[pino as int]));
        }
        let r = pi_next(&mut self.iterators[pino], self.visited.as_mut_slice());
        proof {
            assert forall|i: int| 0 <= i < self.iterators@.len() implies #[trigger] pi_wf(self.iterators@[i]) by {
                if i != pino {
                    assert(self.iterators@[i] == old(self).iterators@[i]);
                }
            }
        }
        r
    }

    /// The number of iterators.
    pub fn len(&self) -> (r: usize)
        ensures
            r == self.iterators@.len(),
    {
        self.iterators.len()
    }

    /// Whether there is no iterator.
    pub fn is_empty(&self) -> (r: bool)
        ensures
            r == (self.iterators@.len() == 0),
    {
        self.iterators.len() == 0
    }

    /// Iterator `pino`.
    pub fn get(&self, pino: usize) -> (r: &PiIterator)
        requires
            pino < self.iterators@.len(),
        ensures
            *r == self.iterators@[pino as int],
    {
        &self.iterators[pino]
    }
}

/// A step of iteration never unmarks a packet: the visited record only grows.
pub proof fn lemma_visited_only_grows(pi0: PiIterator, pi1: PiIterator, v0: Seq<i16>, v1: Seq<i16>, r: bool)
    requires
        step_done(pi0, pi1, v0, v1, r),
    ensures
        v1.len() == v0.len(),
        forall|i: int| 0 <= i < v0.len() && v0[i] != 0 ==> #[trigger] v1[i] != 0,
{
}

/// No packet is returned twice: a packet returned by one step is not returned by any later
/// step, since steps in between only add to the visited record.
pub proof fn lemma_packet_not_returned_twice(
    pi1: PiIterator,
    pi2: PiIterator,
    v0: Seq<i16>,
    v1: Seq<i16>,
    v2: Seq<i16>,
    v3: Seq<i16>,
)
    requires
        packet_taken(pi1, v0, v1),
        v2.len() == v1.len(),
        forall|i: int| 0 <= i < v1.len() && v1[i] != 0 ==> #[trigger] v2[i] != 0,
        packet_taken(pi2, v2, v3),
    ensures
        cur_index(pi1) != cur_index(pi2),
{
    assert(v1[cur_index(pi1)] != 0);
}

} // verus!
