use linebreak::lines::annotate::reconstruct;
use linebreak::lines::error::BreakError;
use linebreak::lines::nodes::Node;
use linebreak::lines::optimizer::optimize;
use linebreak::lines::paragraph::break_nodes;
use linebreak::lines::ratio::adjustment_ratio;
use linebreak::lines::scanner::{calculate_breakpoint, scan, start_breakpoint, Breakpoint};

fn letter() -> Node {
    Node::Box { width: 10 }
}

fn space() -> Node {
    Node::Glue { width: 6, stretchability: 3, shrinkability: 2 }
}

fn hyphen() -> Node {
    Node::Penalty { width: 0, penalty: 50, flagged: true }
}

fn three_words() -> Vec<Node> {
    vec![letter(), letter(), space(), letter(), letter(), space(), letter(), letter()]
}

#[test]
fn three_words_break_after_each_word() {
    let breaks = break_nodes(&three_words(), 26, 10).unwrap();
    assert_eq!(breaks[0], 2);
    assert_eq!(breaks, vec![2, 5]);
}

#[test]
fn the_table_records_the_cheapest_way() {
    let nodes = three_words();
    let feasible = scan(&nodes);
    let table = optimize(&nodes, &feasible, 26, 10).unwrap();
    assert_eq!(
        table,
        vec![
            start_breakpoint(),
            Breakpoint {
                position: 2,
                line_number: 1,
                total_width: 20,
                total_stretchability: 0,
                total_shrinkability: 0,
                total_demerits: 100_000,
                predecessor: Some(0),
            },
            Breakpoint {
                position: 5,
                line_number: 2,
                total_width: 46,
                total_stretchability: 3,
                total_shrinkability: 2,
                total_demerits: 100_000,
                predecessor: Some(1),
            },
            Breakpoint {
                position: 8,
                line_number: 3,
                total_width: 72,
                total_stretchability: 6,
                total_shrinkability: 4,
                total_demerits: 100_000,
                predecessor: Some(2),
            },
        ]
    );
    assert_eq!(reconstruct(&table), vec![2, 5]);
}

#[test]
fn a_wide_target_keeps_the_paragraph_on_one_line() {
    // 72 wide with 6 of stretch: the ratio to 90 is 3.
    let nodes = three_words();
    let table = optimize(&nodes, &scan(&nodes), 90, 10).unwrap();
    assert_eq!(table[3].predecessor, Some(0));
    assert_eq!(table[3].line_number, 1);
    assert_eq!(table[3].total_demerits, 2_700);
    assert_eq!(break_nodes(&nodes, 90, 10), Ok(vec![]));
}

#[test]
fn the_cheaper_of_two_ways_is_taken() {
    // Target 50. Lines: start..5 is 46 wide with stretch 3 (ratio 4/3, 236
    // demerits), then 5..8 is 26 wide with stretch 3 (ratio 8, 51200).
    // Or start..2 (20 wide, no stretch: 100000), then 2..8 (52 wide, shrink 4:
    // ratio -1/2, 12 demerits). The first way costs 51436, the second 100012.
    let nodes = three_words();
    let table = optimize(&nodes, &scan(&nodes), 50, 10).unwrap();
    assert_eq!(table[1].total_demerits, 100_000);
    assert_eq!(table[2].total_demerits, 236);
    assert_eq!(table[2].predecessor, Some(0));
    assert_eq!(table[3].total_demerits, 51_436);
    assert_eq!(table[3].predecessor, Some(2));
    assert_eq!(table[3].line_number, 2);
    assert_eq!(break_nodes(&nodes, 50, 10), Ok(vec![5]));
}

#[test]
fn every_chosen_line_is_within_the_tolerance_or_infinitely_loose() {
    let nodes = three_words();
    for target in [20u32, 26, 30, 46, 50, 60, 72, 90] {
        for ratio_max in [0u16, 1, 3, 10] {
            if let Ok(breaks) = break_nodes(&nodes, target, ratio_max) {
                let mut previous = start_breakpoint();
                let mut ends = breaks.clone();
                ends.push(nodes.len());
                for end in ends {
                    let next = calculate_breakpoint(&nodes, &previous, end);
                    assert!(adjustment_ratio(&previous, &next, target).is_admissible(ratio_max));
                    previous = next;
                }
            }
        }
    }
}

#[test]
fn chosen_positions_ascend() {
    let mut nodes = Vec::new();
    for _ in 0..40 {
        nodes.push(letter());
        nodes.push(letter());
        nodes.push(space());
    }
    nodes.push(letter());
    let breaks = break_nodes(&nodes, 60, 10).unwrap();
    assert!(!breaks.is_empty());
    for pair in breaks.windows(2) {
        assert!(pair[0] < pair[1]);
    }
    for position in breaks {
        assert_eq!(nodes[position], space());
    }
}

#[test]
fn a_word_wider_than_the_line_has_no_feasible_break() {
    let nodes = vec![letter(), letter(), letter()];
    assert_eq!(break_nodes(&nodes, 26, 0), Err(BreakError::NoFeasibleBreak { ratio_max: 0 }));
    assert_eq!(
        optimize(&nodes, &scan(&nodes), 26, 0),
        Err(BreakError::NoFeasibleBreak { ratio_max: 0 })
    );
}

#[test]
fn without_glue_the_paragraph_fits_until_it_is_wider_than_the_line() {
    let nodes = vec![letter(), letter(), letter()];
    assert_eq!(break_nodes(&nodes, 31, 10), Ok(vec![]));
    assert_eq!(break_nodes(&nodes, 30, 10), Ok(vec![]));
    assert_eq!(break_nodes(&nodes, 29, 10), Err(BreakError::NoFeasibleBreak { ratio_max: 10 }));
}

#[test]
fn glue_that_is_no_breakpoint_still_shrinks() {
    // The glue comes first, so no line can end there; it lets the only line
    // shrink from 36 to 35.
    let nodes = vec![space(), letter(), letter(), letter()];
    assert_eq!(scan(&nodes), vec![]);
    assert_eq!(break_nodes(&nodes, 35, 10), Ok(vec![]));
    assert_eq!(break_nodes(&nodes, 34, 10), Ok(vec![]));
    assert_eq!(break_nodes(&nodes, 33, 10), Err(BreakError::NoFeasibleBreak { ratio_max: 10 }));
}

#[test]
fn a_line_looser_than_the_tolerance_is_refused() {
    // One line, 26 wide with 3 of stretch: to reach 60 it needs a ratio of
    // 34/3, which is more than 10.
    let nodes = vec![letter(), space(), letter()];
    assert_eq!(break_nodes(&nodes, 60, 11), Err(BreakError::NoFeasibleBreak { ratio_max: 11 }));
    assert_eq!(break_nodes(&nodes, 60, 12), Ok(vec![]));
}

#[test]
fn an_empty_paragraph_has_no_breaks() {
    assert_eq!(break_nodes(&Vec::new(), 60, 10), Ok(vec![]));
    assert_eq!(break_nodes(&Vec::new(), 0, 0), Ok(vec![]));
}

#[test]
fn a_penalty_adds_to_the_demerits() {
    // box hyphen box, target 10: the line ends at the hyphen (no stretch, so
    // 100 at a tolerance of 1, plus the 50 of the hyphen), and the second line
    // fits exactly.
    let nodes = vec![letter(), hyphen(), letter()];
    let table = optimize(&nodes, &scan(&nodes), 10, 1).unwrap();
    assert_eq!(table[1].total_demerits, 50);
    assert_eq!(table[2].total_demerits, 50);
    assert_eq!(table[2].predecessor, Some(1));
    assert_eq!(reconstruct(&table), vec![1]);
}

#[test]
fn two_flagged_breaks_in_a_row_cost_more() {
    // Every line is exactly 10 wide, so only penalties and the surcharge
    // count: 50, then 50 + 3000.
    let nodes = vec![letter(), hyphen(), letter(), hyphen(), letter()];
    let table = optimize(&nodes, &scan(&nodes), 10, 1).unwrap();
    assert_eq!(table[1].total_demerits, 50);
    assert_eq!(table[2].total_demerits, 3_100);
    assert_eq!(table[3].total_demerits, 3_100);
    assert_eq!(reconstruct(&table), vec![1, 3]);
}

#[test]
fn a_negative_penalty_lowers_the_demerits() {
    let bonus = Node::Penalty { width: 0, penalty: -30, flagged: true };
    let nodes = vec![letter(), bonus, letter()];
    let table = optimize(&nodes, &scan(&nodes), 10, 1).unwrap();
    assert_eq!(table[1].total_demerits, -30);
    assert_eq!(table[2].total_demerits, -30);
}

#[test]
fn of_two_ways_that_cost_the_same_the_earlier_point_wins() {
    // Lines of 10. The first box fits exactly up to either penalty, and the
    // second box fits exactly from either of them: both ways cost nothing.
    let flag = Node::Penalty { width: 0, penalty: 0, flagged: true };
    let nodes = vec![letter(), flag, flag, letter()];
    let table = optimize(&nodes, &scan(&nodes), 10, 1).unwrap();
    assert_eq!(table[1].predecessor, Some(0));
    assert_eq!(table[2].predecessor, Some(0));
    assert_eq!(table[3].predecessor, Some(1));
}

#[test]
fn a_word_too_wide_in_the_middle_ends_the_search() {
    // The second box is wider than the line, so at the space after it every
    // active point is too tight and the active set runs empty.
    let nodes = vec![letter(), space(), Node::Box { width: 100 }, space(), letter()];
    assert_eq!(
        optimize(&nodes, &scan(&nodes), 26, 10),
        Err(BreakError::NoFeasibleBreak { ratio_max: 10 })
    );
    assert_eq!(break_nodes(&nodes, 26, 10), Err(BreakError::NoFeasibleBreak { ratio_max: 10 }));
    // Lines of 106 hold the wide box, but the last line is then 16 wide with
    // 3 of stretch: it needs a tolerance of 30.
    assert_eq!(break_nodes(&nodes, 106, 29), Err(BreakError::NoFeasibleBreak { ratio_max: 29 }));
    assert_eq!(break_nodes(&nodes, 106, 30), Ok(vec![1, 3]));
    assert_eq!(break_nodes(&nodes, 132, 0), Ok(vec![]));
}
