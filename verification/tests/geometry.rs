use xentool::geometry::{
    exquis_board_tuples, geometries, html_escape, svg_dots, svg_edges, svg_legend, GeometryInfo, SvgEdge, geometry_by_name, ltn_boards_tuples, rotate_hex,
    wtn_boards_tuples, Orientation, HEX_NEIGHBOR_DELTAS, LTN_BOARD0_TUPLES, WTN_BOARD0_TUPLES,
    WTN_BOARD1_TUPLES,
};

#[test]
fn exquis_board_has_61_pads() {
    let t = exquis_board_tuples(0);
    assert_eq!(t.len(), 61);
    assert_eq!(t[0].key, 0);
    assert_eq!(t[60].key, 60);
    assert_eq!((t[0].x, t[0].y), (0, 0));
    assert_eq!((t[5].x, t[5].y), (0, 10));
    assert_eq!((t[6].x, t[6].y), (1, 1));
    assert_eq!((t[60].x, t[60].y), (10, 10));
}

#[test]
fn multiple_boards_dont_overlap() {
    let b0 = exquis_board_tuples(0);
    let b1 = exquis_board_tuples(1);
    let coords0: std::collections::HashSet<_> = b0.iter().map(|k| (k.x, k.y)).collect();
    for k in &b1 {
        assert!(!coords0.contains(&(k.x, k.y)), "overlap at ({}, {})", k.x, k.y);
    }
}

#[test]
fn board1_shifted_one_row_down_from_board0() {
    let b0 = exquis_board_tuples(0);
    let b1 = exquis_board_tuples(1);
    let b0_row0 = b0[0].x;
    let b1_row1 = b1[6].x;
    assert_eq!(b0_row0, b1_row1);
}

#[test]
fn doubled_y_parity_holds_across_boards() {
    for b in 0u8..4 {
        for k in exquis_board_tuples(b) {
            assert_eq!(
                k.x.rem_euclid(2),
                k.y.rem_euclid(2),
                "parity violation at board{b} pad{} ({},{})",
                k.key,
                k.x,
                k.y
            );
        }
    }
}

#[test]
fn rotate_hex_0_is_identity() {
    assert_eq!(rotate_hex(2, 4, 0), (2, 4));
}

#[test]
fn rotate_hex_360_is_identity() {
    assert_eq!(rotate_hex(2, 4, 6), (2, 4));
}

#[test]
fn all_neighbor_deltas_have_same_distance() {
    let rotated = rotate_hex(0, -2, 1);
    assert!(HEX_NEIGHBOR_DELTAS.contains(&rotated));
}

#[test]
fn rotate_hex_one_step_and_negative_steps() {
    // (0, -2) turns to (1, -1); turning back by one step undoes it.
    assert_eq!(rotate_hex(0, -2, 1), (1, -1));
    assert_eq!(rotate_hex(1, -1, -1), (0, -2));
    // Three steps is a half turn.
    assert_eq!(rotate_hex(2, 4, 3), (-2, -4));
    // Composition: 2 steps then 3 steps equals 5 steps.
    let (x, y) = rotate_hex(3, 5, 2);
    assert_eq!(rotate_hex(x, y, 3), rotate_hex(3, 5, 5));
}

#[test]
fn every_neighbor_delta_turns_into_a_neighbor_delta() {
    for (dx, dy) in HEX_NEIGHBOR_DELTAS {
        for steps in 0..6 {
            assert!(HEX_NEIGHBOR_DELTAS.contains(&rotate_hex(dx, dy, steps)));
        }
    }
}

#[test]
fn second_exquis_board_is_shifted_by_the_stride() {
    let b2 = exquis_board_tuples(2);
    assert_eq!((b2[0].x, b2[0].y), (-2, 22));
    assert_eq!((b2[60].x, b2[60].y), (8, 32));
}

#[test]
fn lumatone_boards_are_board0_shifted() {
    let boards = ltn_boards_tuples();
    assert_eq!(boards.len(), 5);
    for (k, board) in boards.iter().enumerate() {
        assert_eq!(board.len(), 56);
        for (i, t) in board.iter().enumerate() {
            let b0 = LTN_BOARD0_TUPLES[i];
            assert_eq!(*t, (b0.0, b0.1 + 2 * k as i32, b0.2 + 12 * k as i32));
        }
    }
    assert_eq!(boards[4][55], (55, 18, 58));
    assert_eq!(boards[1][0], (0, 2, 12));
}

#[test]
fn wooting_boards_are_the_two_tables() {
    let boards = wtn_boards_tuples();
    assert_eq!(boards.len(), 2);
    assert_eq!(boards[0], WTN_BOARD0_TUPLES.to_vec());
    assert_eq!(boards[1], WTN_BOARD1_TUPLES.to_vec());
    assert_eq!(boards[1][0], (0, 4, -5));
}

#[test]
fn geometries_lists_three_with_their_boards() {
    let g = geometries(3);
    assert_eq!(g.len(), 3);
    assert_eq!(g[0].name, "exquis");
    assert_eq!(g[0].aliases, vec!["xtn"]);
    assert_eq!(g[0].boards.len(), 3);
    assert_eq!(g[0].board_shift, Some((-1, 11)));
    assert_eq!(g[0].orientation, Orientation::YRightXUp);
    assert_eq!(g[1].name, "lumatone");
    assert_eq!(g[1].board_shift, Some((2, 12)));
    assert_eq!(g[2].name, "wooting");
    assert_eq!(g[2].boards.len(), 2);
    assert_eq!(g[2].board_shift, Some((4, -6)));
}

#[test]
fn geometry_by_name_matches_aliases_in_any_case() {
    assert_eq!(geometry_by_name("XTN", 2).unwrap().name, "exquis");
    assert_eq!(geometry_by_name("Lumatone", 1).unwrap().name, "lumatone");
    assert_eq!(geometry_by_name("wtn", 1).unwrap().name, "wooting");
    assert!(geometry_by_name("linnstrument", 1).is_none());
    assert_eq!(geometry_by_name("exquis", 4).unwrap().boards.len(), 4);
}

#[test]
fn html_escape_escapes_markup() {
    assert_eq!(html_escape("a<b>&c"), "a&lt;b&gt;&amp;c");
    assert_eq!(html_escape("exquis"), "exquis");
    assert_eq!(html_escape("&&"), "&amp;&amp;");
}

#[test]
fn svg_lines_dots_and_legend_of_a_small_geometry() {
    let info = GeometryInfo {
        name: "tiny",
        aliases: vec![],
        description: "two boards",
        boards: vec![vec![(0, 0, 0), (1, 0, 2)], vec![(0, 1, 1)]],
        board_shift: None,
        orientation: Orientation::YRightXDown,
    };
    assert_eq!(
        svg_edges(&info),
        vec![
            SvgEdge { from: (0, 0), to: (0, 2), same_board: true },
            SvgEdge { from: (0, 0), to: (1, 1), same_board: false },
            SvgEdge { from: (0, 2), to: (1, 1), same_board: false },
        ]
    );
    assert_eq!(svg_dots(&info), vec![(0, 0, 0, 0), (0, 1, 0, 2), (1, 0, 1, 1)]);
    assert_eq!(svg_legend(&info), vec![0, 1]);
}

#[test]
fn svg_of_exquis_boards_draws_each_neighbour_pair_once() {
    let info = geometry_by_name("exquis", 2).unwrap();
    let edges = svg_edges(&info);
    for (i, a) in edges.iter().enumerate() {
        for b in &edges[i + 1..] {
            assert!(!((a.from == b.from && a.to == b.to) || (a.from == b.to && a.to == b.from)));
        }
    }
    assert_eq!(svg_dots(&info).len(), 122);
    assert!(svg_dots(&info).iter().all(|d| d.0 < 2));
}

#[test]
fn regular_geometries_move_each_board_by_the_board_shift() {
    let g = geometries(3);
    for gi in 0..2 {
        let (dx, dy) = g[gi].board_shift.unwrap();
        for b in 0..g[gi].boards.len() - 1 {
            assert_eq!(g[gi].boards[b + 1].len(), g[gi].boards[b].len());
            for (i, &(pad, x, y)) in g[gi].boards[b].iter().enumerate() {
                assert_eq!(g[gi].boards[b + 1][i], (pad, x + dx, y + dy));
            }
        }
    }
    assert_eq!(g[0].board_shift, Some((-1, 11)));
    assert_eq!(g[1].board_shift, Some((2, 12)));
}
