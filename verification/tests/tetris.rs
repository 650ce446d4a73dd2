use ic_laya_core::tetris::{
    advance, landed, model_selection, piece_at, placements, query_options, recommend, request,
    sample_candidates, shapes, Candidate, Pose, TetrisQueryInput, QUERY_STATE, RULES,
};

fn empty_board() -> Vec<u8> {
    vec![0u8; 200]
}

/// Bottom row full but its last column, the row above filled on its first seven columns.
fn ledge_board() -> Vec<u8> {
    let mut b = empty_board();
    for x in 0..9 {
        b[190 + x] = 3;
    }
    for x in 0..7 {
        b[180 + x] = 2;
    }
    b
}

fn pose(r: u8, x: i8, y: i8) -> Pose {
    Pose { r, x, y }
}

fn candidate(lines: u8, holes: u16, height: u8) -> Candidate {
    Candidate {
        pose: pose(0, 0, 0),
        cells: vec![],
        holes,
        height,
        lines,
        evaluation: 10 * lines as i32 - 8 * holes as i32 - height as i32,
        path: vec![],
    }
}

#[test]
fn shapes_are_distinct_normalized_rotations() {
    assert_eq!(shapes(0), vec![vec![(0, 0), (1, 0), (2, 0), (3, 0)], vec![(0, 0), (0, 1), (0, 2), (0, 3)]]);
    assert_eq!(shapes(1), vec![vec![(0, 0), (0, 1), (1, 0), (1, 1)]]);
    assert_eq!(
        shapes(2),
        vec![
            vec![(0, 0), (1, 0), (1, 1), (2, 0)],
            vec![(0, 1), (1, 0), (1, 1), (1, 2)],
            vec![(0, 1), (1, 0), (1, 1), (2, 1)],
            vec![(0, 0), (0, 1), (0, 2), (1, 1)],
        ]
    );
    assert_eq!(shapes(3).len(), 2);
    assert_eq!(shapes(4), vec![vec![(0, 0), (1, 0), (1, 1), (2, 1)], vec![(0, 1), (0, 2), (1, 0), (1, 1)]]);
    assert_eq!(shapes(5).len(), 4);
    assert_eq!(shapes(6)[0], vec![(0, 1), (1, 1), (2, 0), (2, 1)]);
    // Any number past six is the last piece.
    assert_eq!(shapes(9), shapes(6));
}

#[test]
fn placement_counts_on_an_empty_board() {
    let counts: Vec<usize> = (0..7).map(|p| placements(&empty_board(), p).len()).collect();
    assert_eq!(counts, vec![17, 9, 34, 17, 17, 34, 34]);
}

#[test]
fn square_rests_on_the_floor() {
    let all = placements(&empty_board(), 1);
    assert_eq!(all.len(), 9);
    for (i, c) in all.iter().enumerate() {
        assert_eq!(c.pose, pose(0, i as i8, 18));
        assert_eq!((c.lines, c.holes, c.height, c.evaluation), (0, 0, 2, -2));
        assert_eq!(c.path[0], pose(0, 4, 0));
        assert_eq!(*c.path.last().unwrap(), c.pose);
        assert_eq!(c.path.len(), 19 + (i as i64 - 4).unsigned_abs() as usize);
    }
    assert_eq!(all[0].cells, vec![(0, 18), (0, 19), (1, 18), (1, 19)]);
}

#[test]
fn placements_on_a_ledge_include_the_line_clear() {
    let all = placements(&ledge_board(), 0);
    assert_eq!(all.len(), 17);
    let poses: Vec<Pose> = all.iter().map(|c| c.pose.clone()).collect();
    let mut sorted = poses.clone();
    sorted.sort();
    assert_eq!(poses, sorted);
    let feats: Vec<(u8, u16, u8, i32)> = all.iter().map(|c| (c.lines, c.holes, c.height, c.evaluation)).collect();
    assert_eq!(feats[0], (0, 0, 3, -3));
    assert_eq!(feats[4], (0, 1, 3, -11));
    assert_eq!(feats[6], (0, 4, 3, -35));
    assert_eq!(feats[7], (0, 0, 6, -6));
    assert_eq!(feats[15], (0, 0, 5, -5));
    let last = &all[16];
    assert_eq!(last.pose, pose(1, 9, 16));
    assert_eq!((last.lines, last.holes, last.height, last.evaluation), (1, 0, 3, 7));
    assert_eq!(last.cells, vec![(9, 16), (9, 17), (9, 18), (9, 19)]);
    assert_eq!(last.path.len(), 24);
    assert_eq!(&last.path[..3], &[pose(0, 3, 0), pose(1, 3, 0), pose(1, 4, 0)]);
    // Each path step is one move.
    for w in last.path.windows(2) {
        let (a, b) = (&w[0], &w[1]);
        let moved = (b.r != a.r) as i32 + (b.x - a.x).abs() as i32 + (b.y - a.y) as i32;
        assert_eq!(moved, 1);
    }
}

#[test]
fn blocked_spawn_has_no_placements() {
    let mut b = empty_board();
    for x in 0..10 {
        b[x] = 1;
    }
    assert!(placements(&b, 0).is_empty());
    assert!(placements(&b, 3).is_empty());
}

#[test]
fn landing_clears_full_rows() {
    let (after, lines) = landed(&ledge_board(), 0, &[(9, 16), (9, 17), (9, 18), (9, 19)]);
    assert_eq!(lines, 1);
    assert_eq!(after.len(), 200);
    assert_eq!(&after[180..200], &[0, 0, 0, 0, 0, 0, 0, 0, 0, 1, 2, 2, 2, 2, 2, 2, 2, 0, 0, 1]);
    assert!(after[..170].iter().all(|v| *v == 0));
    assert_eq!(after[179], 1);
}

#[test]
fn landing_without_clear_marks_piece_number() {
    let (after, lines) = landed(&empty_board(), 4, &[(0, 19), (1, 19)]);
    assert_eq!(lines, 0);
    assert_eq!(after[190], 5);
    assert_eq!(after[191], 5);
    assert_eq!(after.iter().filter(|v| **v != 0).count(), 2);
}

#[test]
fn sample_spreads_distinct_features() {
    let all = placements(&ledge_board(), 0);
    let s = sample_candidates(&all, 4);
    let picked: Vec<Pose> = s.iter().map(|c| c.pose.clone()).collect();
    assert_eq!(picked, vec![pose(0, 0, 17), pose(0, 6, 17), pose(1, 0, 14), pose(0, 5, 17)]);
    assert_eq!(s[1].path, all[6].path);
    // At least the first candidate, even for a zero limit.
    assert_eq!(sample_candidates(&all, 0).len(), 1);
    // Limits beyond the distinct feature triples stop at them.
    assert_eq!(sample_candidates(&all, 100).len(), 7);
    assert!(sample_candidates(&vec![], 4).is_empty());
}

#[test]
fn sample_keeps_first_of_equal_features() {
    let all = placements(&empty_board(), 1);
    let s = sample_candidates(&all, 4);
    assert_eq!(s.len(), 1);
    assert_eq!(s[0].pose, pose(0, 0, 18));
}

#[test]
fn sample_ties_go_to_the_later_index() {
    let all = vec![candidate(0, 0, 5), candidate(0, 0, 7), candidate(0, 0, 3)];
    let s = sample_candidates(&all, 2);
    assert_eq!(s.len(), 2);
    assert_eq!(s[1].height, 3);
}

#[test]
fn recommend_takes_first_best() {
    assert_eq!(recommend(&vec![]), 0);
    let opts = vec![candidate(0, 0, 3), candidate(1, 0, 3), candidate(1, 0, 3), candidate(0, 1, 0)];
    assert_eq!(recommend(&opts), 1);
    let all = placements(&ledge_board(), 0);
    assert_eq!(recommend(&sample_candidates(&all, 4)), 0);
    assert_eq!(recommend(&all), 16);
}

#[test]
fn seven_bag_sequence() {
    assert_eq!((0..14).map(|i| piece_at(0, i)).collect::<Vec<_>>(), vec![3, 1, 4, 0, 6, 5, 2, 4, 1, 0, 2, 3, 6, 5]);
    assert_eq!((0..14).map(|i| piece_at(12345, i)).collect::<Vec<_>>(), vec![6, 4, 0, 1, 3, 2, 5, 1, 3, 0, 4, 2, 5, 6]);
    assert_eq!(piece_at(7, 100), 5);
    assert_eq!(piece_at(1, 127), 4);
}

#[test]
fn every_bag_is_a_permutation() {
    for seed in [0u32, 1, 99, 0xdead_beef] {
        for bag in 0..20u32 {
            let mut pieces: Vec<u8> = (0..7).map(|k| piece_at(seed, bag * 7 + k)).collect();
            pieces.sort();
            assert_eq!(pieces, vec![0, 1, 2, 3, 4, 5, 6]);
        }
    }
}

#[test]
fn request_ranks_each_feature() {
    let all = placements(&ledge_board(), 0);
    let r = request(&sample_candidates(&all, 4));
    assert_eq!(r.state, QUERY_STATE);
    assert_eq!(r.state, "Min holes");
    assert!(r.question.is_empty());
    assert!(!r.abstention);
    let ids: Vec<&str> = r.options.iter().map(|o| o.id.as_str()).collect();
    assert_eq!(ids, vec!["0", "1", "2", "3"]);
    let texts: Vec<&str> = r.options.iter().map(|o| o.text.as_str()).collect();
    assert_eq!(
        texts,
        vec![
            "min holes,min height,equal missed",
            "max holes,min height,equal missed",
            "min holes,max height,equal missed",
            "mid holes,min height,equal missed",
        ]
    );
}

#[test]
fn request_counts_missed_lines_from_the_best() {
    let opts = vec![candidate(2, 0, 4), candidate(0, 0, 4), candidate(1, 3, 4)];
    let r = request(&opts);
    assert_eq!(r.options[0].text, "min holes,equal height,min missed");
    assert_eq!(r.options[1].text, "min holes,equal height,max missed");
    assert_eq!(r.options[2].text, "max holes,equal height,mid missed");
    let many: Vec<Candidate> = (0..12).map(|_| candidate(0, 0, 1)).collect();
    let r = request(&many);
    assert_eq!(r.options[11].id, "11");
    assert_eq!(r.options[11].text, "equal holes,equal height,equal missed");
}

fn input(board: Vec<u8>, turn: u32, lines: u32, mode: u8) -> TetrisQueryInput {
    TetrisQueryInput { board, seed: 0, turn, lines, mode }
}

#[test]
fn query_rejects_malformed_input() {
    let bad = "Invalid query board or turn";
    assert_eq!(query_options(&input(vec![0; 199], 0, 0, 0)).unwrap_err(), bad);
    let mut b = empty_board();
    b[5] = 8;
    assert_eq!(query_options(&input(b, 0, 0, 0)).unwrap_err(), bad);
    assert_eq!(query_options(&input(empty_board(), 128, 0, 0)).unwrap_err(), bad);
    assert_eq!(query_options(&input(empty_board(), 3, 13, 0)).unwrap_err(), bad);
    assert_eq!(query_options(&input(empty_board(), 0, 0, 2)).unwrap_err(), bad);
    assert!(query_options(&input(empty_board(), 127, 508, 1)).is_ok());
}

#[test]
fn query_without_spawn_room() {
    let mut b = empty_board();
    for x in 0..10 {
        b[x] = 7;
    }
    assert_eq!(query_options(&input(b, 3, 0, 0)).unwrap_err(), "No legal placements");
}

#[test]
fn query_counts_and_samples() {
    // Turn 3 of seed 0 deals the long piece.
    let (count, options) = query_options(&input(ledge_board(), 3, 2, 1)).unwrap();
    assert_eq!(count, 17);
    let picked: Vec<Pose> = options.iter().map(|c| c.pose.clone()).collect();
    assert_eq!(picked, vec![pose(0, 0, 17), pose(0, 6, 17), pose(1, 0, 14), pose(0, 5, 17)]);
}

#[test]
fn advancing_lands_and_deals_the_next_piece() {
    let q = input(ledge_board(), 3, 2, 1);
    let t = advance(&q, &[(9, 16), (9, 17), (9, 18), (9, 19)]);
    assert_eq!((t.piece, t.next), (0, 6));
    assert_eq!(t.lines, 1);
    assert_eq!(t.total_lines, 3);
    assert!(!t.over);
    assert_eq!(&t.after[180..200], &[0, 0, 0, 0, 0, 0, 0, 0, 0, 1, 2, 2, 2, 2, 2, 2, 2, 0, 0, 1]);
    let last = advance(&input(empty_board(), 127, 0, 1), &[(0, 19), (1, 19), (2, 19), (3, 19)]);
    assert!(last.over);
}

#[test]
fn game_ends_when_next_piece_cannot_spawn() {
    // Turn 1 of seed 0 deals the square, which spawns over columns 4 and 5.
    let mut b = empty_board();
    b[4] = 1;
    let t = advance(&input(b, 0, 0, 1), &[(1, 18), (2, 18), (0, 19), (1, 19)]);
    assert_eq!((t.piece, t.next), (3, 1));
    assert!(t.over);
    let t = advance(&input(empty_board(), 0, 0, 1), &[(1, 18), (2, 18), (0, 19), (1, 19)]);
    assert!(!t.over);
}

#[test]
fn model_selection_parses_ids() {
    assert_eq!(model_selection("2", 4), Ok(2));
    assert_eq!(model_selection("+1", 4), Ok(1));
    assert_eq!(model_selection("007", 8), Ok(7));
    assert_eq!(model_selection("4", 4).unwrap_err(), "Invalid model selection");
    for bad in ["", "+", "-1", "a", "1 ", "99999999999999999999999"] {
        assert_eq!(model_selection(bad, 4).unwrap_err(), "Invalid selected ID");
    }
}

#[test]
fn rules_name() {
    assert_eq!(RULES, "placement-v1-normalized-cw-no-kicks-7bag-query-feature-cost-v1");
}
