use openjpeg_rs::j2k::params::Poc;
use openjpeg_rs::tier2::pi::{
    get_encoding_packet_count, pi_next, PacketIterators, PiComp, PiIterator, PiResolution,
};
use openjpeg_rs::types::ProgressionOrder;


/// Create a simple PI for testing: 1 component, 2 layers, 2 resolution levels.
/// Res 0: 2x2 = 4 precincts (pdx=1,pdy=1,pw=2,ph=2)
/// Res 1: 1x1 = 1 precinct  (pdx=1,pdy=1,pw=1,ph=1)
fn create_test_pi(prg: ProgressionOrder) -> (PiIterator, Vec<i16>) {
    let resolutions = vec![
        PiResolution {
            pdx: 1,
            pdy: 1,
            pw: 2,
            ph: 2,
        },
        PiResolution {
            pdx: 1,
            pdy: 1,
            pw: 1,
            ph: 1,
        },
    ];
    let comp = PiComp {
        dx: 1,
        dy: 1,
        numresolutions: 2,
        resolutions,
    };

    let numlayers = 2u32;
    let numcomps = 1u32;
    let max_res = 2u32;
    let max_prec = 4u32;

    let step_p = 1u32;
    let step_c = max_prec * step_p;
    let step_r = numcomps * step_c;
    let step_l = max_res * step_r;

    let visited_size = numlayers * step_l;
    let visited = vec![0i16; visited_size as usize];

    let poc = Poc {
        layno1: numlayers,
        resno1: max_res,
        compno1: numcomps,
        precno1: max_prec,
        prg,
        tx1: 4,
        ty1: 4,
        ..Default::default()
    };

    let pi = PiIterator {
        tp_on: false,
        step_l,
        step_r,
        step_c,
        step_p,
        compno: 0,
        resno: 0,
        precno: 0,
        layno: 0,
        first: true,
        poc,
        numcomps,
        comps: vec![comp],
        tx0: 0,
        ty0: 0,
        tx1: 4,
        ty1: 4,
        x: 0,
        y: 0,
        dx: 0,
        dy: 0,
    };

    (pi, visited)
}

fn collect_packets(pi: &mut PiIterator, visited: &mut [i16]) -> Vec<(u32, u32, u32, u32)> {
    let mut packets = Vec::new();
    while pi_next(pi, visited) {
        packets.push((pi.layno, pi.resno, pi.compno, pi.precno));
    }
    packets
}

/// Create a single-resolution PI suitable for spatial progression orders.
/// 1 component, 2 layers, 1 resolution, 2x2 = 4 precincts.
fn create_spatial_test_pi(prg: ProgressionOrder) -> (PiIterator, Vec<i16>) {
    let resolutions = vec![PiResolution {
        pdx: 1,
        pdy: 1,
        pw: 2,
        ph: 2,
    }];
    let comp = PiComp {
        dx: 1,
        dy: 1,
        numresolutions: 1,
        resolutions,
    };

    let numlayers = 2u32;
    let numcomps = 1u32;
    let max_res = 1u32;
    let max_prec = 4u32;

    let step_p = 1u32;
    let step_c = max_prec * step_p;
    let step_r = numcomps * step_c;
    let step_l = max_res * step_r;

    let visited_size = numlayers * step_l;
    let visited = vec![0i16; visited_size as usize];

    let poc = Poc {
        layno1: numlayers,
        resno1: max_res,
        compno1: numcomps,
        precno1: max_prec,
        prg,
        tx1: 4,
        ty1: 4,
        ..Default::default()
    };

    let pi = PiIterator {
        tp_on: false,
        step_l,
        step_r,
        step_c,
        step_p,
        compno: 0,
        resno: 0,
        precno: 0,
        layno: 0,
        first: true,
        poc,
        numcomps,
        comps: vec![comp],
        tx0: 0,
        ty0: 0,
        tx1: 4,
        ty1: 4,
        x: 0,
        y: 0,
        dx: 0,
        dy: 0,
    };

    (pi, visited)
}

// --- Structure tests ---

#[test]
fn pi_resolution_default() {
    let res = PiResolution::default();
    assert_eq!(res.pdx, 0);
    assert_eq!(res.pw, 0);
}

#[test]
fn pi_comp_default() {
    let comp = PiComp::default();
    assert_eq!(comp.dx, 0);
    assert_eq!(comp.numresolutions, 0);
    assert!(comp.resolutions.is_empty());
}

#[test]
fn packet_iterators_basic() {
    let (pi, visited) = create_test_pi(ProgressionOrder::Lrcp);
    let mut pis = PacketIterators {
        iterators: vec![pi],
        visited: visited,
    };
    assert_eq!(pis.len(), 1);
    assert!(!pis.is_empty());
    assert!(pis.next(0)); // Should find at least one packet
}

// --- LRCP tests ---

#[test]
fn lrcp_packet_count() {
    let (mut pi, mut visited) = create_test_pi(ProgressionOrder::Lrcp);
    let packets = collect_packets(&mut pi, &mut visited);
    // 2 layers * (4 precincts @ res0 + 1 precinct @ res1) = 10
    assert_eq!(packets.len(), 10);
}

#[test]
fn lrcp_ordering() {
    let (mut pi, mut visited) = create_test_pi(ProgressionOrder::Lrcp);
    let packets = collect_packets(&mut pi, &mut visited);
    // LRCP: Layer outermost. Within each layer: R then C then P.
    // Layer 0:
    assert_eq!(packets[0], (0, 0, 0, 0));
    assert_eq!(packets[1], (0, 0, 0, 1));
    assert_eq!(packets[2], (0, 0, 0, 2));
    assert_eq!(packets[3], (0, 0, 0, 3));
    assert_eq!(packets[4], (0, 1, 0, 0)); // Res 1, 1 precinct
    // Layer 1:
    assert_eq!(packets[5], (1, 0, 0, 0));
    assert_eq!(packets[9], (1, 1, 0, 0));
}

#[test]
fn lrcp_layers_are_outermost() {
    let (mut pi, mut visited) = create_test_pi(ProgressionOrder::Lrcp);
    let packets = collect_packets(&mut pi, &mut visited);
    // All layer 0 packets come before all layer 1 packets
    let first_l1 = packets.iter().position(|p| p.0 == 1).unwrap();
    assert!(packets[..first_l1].iter().all(|p| p.0 == 0));
}

// --- RLCP tests ---

#[test]
fn rlcp_packet_count() {
    let (mut pi, mut visited) = create_test_pi(ProgressionOrder::Rlcp);
    let packets = collect_packets(&mut pi, &mut visited);
    assert_eq!(packets.len(), 10);
}

#[test]
fn rlcp_ordering() {
    let (mut pi, mut visited) = create_test_pi(ProgressionOrder::Rlcp);
    let packets = collect_packets(&mut pi, &mut visited);
    // RLCP = Res → Lay → Comp → Prec
    // Res 0, L0: C0, P=[0..3] → 4 packets
    // Res 0, L1: C0, P=[0..3] → 4 packets
    // Res 1, L0: C0, P=[0]   → 1 packet
    // Res 1, L1: C0, P=[0]   → 1 packet
    assert_eq!(packets[0], (0, 0, 0, 0));
    assert_eq!(packets[3], (0, 0, 0, 3));
    assert_eq!(packets[4], (1, 0, 0, 0)); // L1, Res 0
    assert_eq!(packets[7], (1, 0, 0, 3));
    assert_eq!(packets[8], (0, 1, 0, 0)); // Res 1, L0
    assert_eq!(packets[9], (1, 1, 0, 0)); // Res 1, L1
}

#[test]
fn rlcp_resolutions_are_outermost() {
    let (mut pi, mut visited) = create_test_pi(ProgressionOrder::Rlcp);
    let packets = collect_packets(&mut pi, &mut visited);
    // All res 0 packets come before all res 1 packets
    let first_r1 = packets.iter().position(|p| p.1 == 1).unwrap();
    assert!(packets[..first_r1].iter().all(|p| p.1 == 0));
}

// --- Include array ---

#[test]
fn include_prevents_duplicates() {
    let (mut pi, mut visited) = create_test_pi(ProgressionOrder::Lrcp);
    let packets1 = collect_packets(&mut pi, &mut visited);
    // Reset iterator but keep visited array
    pi.first = true;
    let packets2 = collect_packets(&mut pi, &mut visited);
    // Second pass should find no packets (all already visited)
    assert!(!packets1.is_empty());
    assert!(packets2.is_empty());
}

// --- RPCL tests ---

#[test]
fn rpcl_packet_count() {
    let (mut pi, mut visited) = create_spatial_test_pi(ProgressionOrder::Rpcl);
    let packets = collect_packets(&mut pi, &mut visited);
    // 1 res × 4 precincts × 2 layers = 8
    assert_eq!(packets.len(), 8);
}

// --- PCRL tests ---

#[test]
fn pcrl_packet_count() {
    let (mut pi, mut visited) = create_spatial_test_pi(ProgressionOrder::Pcrl);
    let packets = collect_packets(&mut pi, &mut visited);
    assert_eq!(packets.len(), 8);
}

// --- CPRL tests ---

#[test]
fn cprl_packet_count() {
    let (mut pi, mut visited) = create_spatial_test_pi(ProgressionOrder::Cprl);
    let packets = collect_packets(&mut pi, &mut visited);
    assert_eq!(packets.len(), 8);
}

// --- pi_next dispatch ---

#[test]
fn pi_next_dispatches_correctly() {
    // LRCP and RLCP with multi-res config
    for prg in [ProgressionOrder::Lrcp, ProgressionOrder::Rlcp] {
        let (mut pi, mut visited) = create_test_pi(prg);
        let packets = collect_packets(&mut pi, &mut visited);
        assert_eq!(packets.len(), 10, "Expected 10 packets for {:?}", prg);
    }
    // Spatial orders with single-res config
    for prg in [
        ProgressionOrder::Rpcl,
        ProgressionOrder::Pcrl,
        ProgressionOrder::Cprl,
    ] {
        let (mut pi, mut visited) = create_spatial_test_pi(prg);
        let packets = collect_packets(&mut pi, &mut visited);
        assert_eq!(packets.len(), 8, "Expected 8 packets for {:?}", prg);
    }
}

// --- Packet count helper ---

#[test]
fn encoding_packet_count() {
    assert_eq!(get_encoding_packet_count(2, 1, 2, 4), 16);
    assert_eq!(get_encoding_packet_count(1, 3, 5, 2), 30);
    assert_eq!(get_encoding_packet_count(0, 1, 1, 1), 0);
}

// --- Empty tile ---

// --- pi_create_decode ---

#[test]
fn empty_tile_returns_false() {
    let comp = PiComp {
        dx: 1,
        dy: 1,
        numresolutions: 1,
        resolutions: vec![PiResolution {
            pdx: 0,
            pdy: 0,
            pw: 0,
            ph: 0,
        }],
    };
    let poc = Poc {
        layno1: 1,
        resno1: 1,
        compno1: 1,
        prg: ProgressionOrder::Lrcp,
        ..Default::default()
    };

    let mut pi = PiIterator {
        tp_on: false,
        step_l: 1,
        step_r: 1,
        step_c: 1,
        step_p: 1,
        compno: 0,
        resno: 0,
        precno: 0,
        layno: 0,
        first: true,
        poc,
        numcomps: 1,
        comps: vec![comp],
        tx0: 0,
        ty0: 0,
        tx1: 0,
        ty1: 0,
        x: 0,
        y: 0,
        dx: 0,
        dy: 0,
    };
    let mut visited = vec![0i16; 1];
    assert!(!pi_next(&mut pi, &mut visited));
}

#[test]
fn exhausted_iteration_marks_every_packet_of_the_progression() {
    // When the layer- or resolution-major iteration ends, every packet of the
    // progression is marked: here the 4 precincts of resolution 0 and the one of
    // resolution 1, in both layers.
    for prg in [ProgressionOrder::Lrcp, ProgressionOrder::Rlcp] {
        let (mut pi, mut visited) = create_test_pi(prg);
        let packets = collect_packets(&mut pi, &mut visited);
        assert_eq!(packets.len(), 10);
        for l in 0..2usize {
            for p in 0..4usize {
                assert_ne!(visited[l * 8 + p], 0, "{:?}: layer {l}, resolution 0, precinct {p}", prg);
            }
            assert_ne!(visited[l * 8 + 4], 0, "{:?}: layer {l}, resolution 1, precinct 0", prg);
        }
        // Precincts 1..4 of resolution 1 do not exist and stay unmarked.
        for l in 0..2usize {
            for p in 5..8usize {
                assert_eq!(visited[l * 8 + p], 0);
            }
        }
    }
}

#[test]
fn iteration_resumes_after_packets_marked_elsewhere() {
    // Packets already marked by another iterator are skipped; the rest are returned once.
    let (mut pi, mut visited) = create_test_pi(ProgressionOrder::Lrcp);
    visited[1] = 1;
    visited[8 + 4] = 1;
    let packets = collect_packets(&mut pi, &mut visited);
    assert_eq!(packets.len(), 8);
    assert!(!packets.contains(&(0, 0, 0, 1)));
    assert!(!packets.contains(&(1, 1, 0, 0)));
}

#[test]
fn rpcl_returns_each_packet_of_the_grid_once() {
    // One component, one resolution of 2x2 precincts of 2x2 samples on a 4x4 tile, two
    // layers: eight packets, each returned once, then none.
    let comp = PiComp {
        dx: 1,
        dy: 1,
        numresolutions: 1,
        resolutions: vec![PiResolution { pdx: 1, pdy: 1, pw: 2, ph: 2 }],
    };
    let poc = Poc { layno1: 2, resno1: 1, compno1: 1, precno1: 4, prg: ProgressionOrder::Rpcl, tx1: 4, ty1: 4, ..Default::default() };
    let mut pi = PiIterator {
        tp_on: false,
        step_l: 4,
        step_r: 4,
        step_c: 4,
        step_p: 1,
        compno: 0,
        resno: 0,
        precno: 0,
        layno: 0,
        first: true,
        poc,
        numcomps: 1,
        comps: vec![comp],
        tx0: 0,
        ty0: 0,
        tx1: 4,
        ty1: 4,
        x: 0,
        y: 0,
        dx: 0,
        dy: 0,
    };
    let mut visited = vec![0i16; 8];
    let packets = collect_packets(&mut pi, &mut visited);
    assert_eq!(packets.len(), 8);
    let mut sorted = packets.clone();
    sorted.sort();
    sorted.dedup();
    assert_eq!(sorted.len(), 8);
    for l in 0..2u32 {
        for p in 0..4u32 {
            assert!(packets.contains(&(l, 0, 0, p)));
        }
    }
    assert!(visited.iter().all(|&v| v != 0));
}
