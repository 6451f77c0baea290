use linebreak::break_lines;
use linebreak::lines::annotate::MARKER;
use linebreak::lines::builder::{build, build_nodes, node_of};
use linebreak::lines::error::BreakError;
use linebreak::lines::nodes::Node;
use linebreak::lines::paragraph::{
    break_clusters, break_nodes, break_paragraph, break_paragraph_with, mark_breaks, offsets_of,
    Config,
};
use linebreak::lines::segment::byte_length;

const FAIRY_TALE: &str = "In olden times when wishing still helped one, there lived a king whose daughters were all beautiful; and the youngest was so beautiul that the sun itself, which has seen so much, was astonished whenever it shone in her face.";

fn space() -> Node {
    Node::Glue { width: 6, stretchability: 3, shrinkability: 2 }
}

fn clusters(parts: &[&str]) -> Vec<Vec<char>> {
    parts.iter().map(|part| part.chars().collect()).collect()
}

#[test]
fn the_defaults_are_the_usual_settings() {
    assert_eq!(
        Config::default(),
        Config {
            target_width: 60,
            ratio_max: 10,
            hyphen_penalty_value: 50,
            reject_unrecognized: false,
        }
    );
}

#[test]
fn build_gives_one_node_for_each_character() {
    assert_eq!(
        build("a b-c", 50, false),
        Ok(vec![
            Node::Box { width: 9 },
            space(),
            Node::Box { width: 10 },
            Node::Penalty { width: 0, penalty: 50, flagged: true },
            Node::Box { width: 8 },
        ])
    );
}

#[test]
fn glue_takes_the_place_of_the_box() {
    assert_eq!(
        build(" ,;.", 50, false),
        Ok(vec![
            space(),
            Node::Glue { width: 6, stretchability: 4, shrinkability: 2 },
            Node::Glue { width: 6, stretchability: 4, shrinkability: 1 },
            Node::Glue { width: 8, stretchability: 6, shrinkability: 1 },
        ])
    );
}

#[test]
fn the_hyphen_costs_what_the_caller_says() {
    assert_eq!(
        build("-", -3, false),
        Ok(vec![Node::Penalty { width: 0, penalty: -3, flagged: true }])
    );
    assert_eq!(
        node_of(&vec!['-'], 7),
        Some(Node::Penalty { width: 0, penalty: 7, flagged: true })
    );
}

#[test]
fn an_unknown_character_is_a_box_of_no_width() {
    assert_eq!(
        build("a?b", 50, false),
        Ok(vec![Node::Box { width: 9 }, Node::Box { width: 0 }, Node::Box { width: 10 }])
    );
    assert_eq!(node_of(&vec!['?'], 50), None);
    assert_eq!(node_of(&vec![], 50), None);
    assert_eq!(node_of(&vec!['a', 'b'], 50), None);
}

#[test]
fn an_unknown_character_is_rejected_on_demand() {
    assert_eq!(build("ab?c!", 50, true), Err(BreakError::UnrecognizedCharacter { position: 2 }));
    assert_eq!(build("?", 50, true), Err(BreakError::UnrecognizedCharacter { position: 0 }));
    assert_eq!(build("ab c", 50, true), build("ab c", 50, false));
    assert_eq!(
        build_nodes(&clusters(&["a", "bc", "?"]), 50, true),
        Err(BreakError::UnrecognizedCharacter { position: 1 })
    );
}

#[test]
fn a_cluster_of_several_characters_is_one_node() {
    // "e" with a combining acute accent is one cluster of two characters, and
    // a carriage return with a line feed is one cluster too.
    assert_eq!(
        build("ae\u{301}\r\nb", 50, false),
        Ok(vec![
            Node::Box { width: 9 },
            Node::Box { width: 0 },
            Node::Box { width: 0 },
            Node::Box { width: 10 },
        ])
    );
    assert_eq!(
        build("ae\u{301}b", 50, true),
        Err(BreakError::UnrecognizedCharacter { position: 1 })
    );
}

#[test]
fn offsets_count_the_characters_of_the_clusters_before() {
    let parts = clusters(&["m", "a\u{310}", "m", " ", "e", "e"]);
    assert_eq!(offsets_of(&parts, &vec![0, 1, 2, 3, 6]), vec![0, 1, 3, 4, 7]);
    assert_eq!(offsets_of(&parts, &vec![]), Vec::<usize>::new());
    assert_eq!(offsets_of(&Vec::new(), &vec![0]), vec![0]);
}

#[test]
fn three_short_words_on_narrow_lines() {
    assert_eq!(break_paragraph("aa bb cc", 26, 10), Ok(String::from("aa&shy; bb&shy; cc")));
}

#[test]
fn three_short_words_on_the_usual_lines() {
    assert_eq!(break_paragraph("aa bb cc", 60, 10), Ok(String::from("aa&shy; bb cc")));
    assert_eq!(break_lines("aa bb cc"), Ok(String::from("aa&shy; bb cc")));
}

#[test]
fn an_empty_text_comes_back_unchanged() {
    assert_eq!(break_paragraph("", 60, 10), Ok(String::new()));
    assert_eq!(break_paragraph("", 0, 0), Ok(String::new()));
    assert_eq!(break_lines(""), Ok(String::new()));
}

#[test]
fn a_text_on_one_line_comes_back_unchanged() {
    assert_eq!(break_paragraph("ab", 60, 10), Ok(String::from("ab")));
    assert_eq!(break_paragraph("a b", 60, 20), Ok(String::from("a b")));
}

#[test]
fn a_line_that_is_too_loose_is_reported_with_the_tolerance() {
    assert_eq!(break_paragraph("a b", 60, 10), Err(BreakError::NoFeasibleBreak { ratio_max: 10 }));
}

#[test]
fn a_word_wider_than_the_line_is_reported() {
    // "Drinking" is 66 wide.
    assert_eq!(
        break_paragraph("Drinking", 60, 0),
        Err(BreakError::NoFeasibleBreak { ratio_max: 0 })
    );
    assert_eq!(
        break_lines("Five Reasons Drinking Milk On the Toilet Is Kind Of a Game Changer"),
        Err(BreakError::NoFeasibleBreak { ratio_max: 10 })
    );
    assert_eq!(break_paragraph("Drinking", 66, 0), Ok(String::from("Drinking")));
}

#[test]
fn a_headline_on_lines_of_two_hundred() {
    assert_eq!(
        break_paragraph(
            "Five Reasons Drinking Milk On the Toilet Is Kind Of a Game Changer",
            200,
            5
        ),
        Ok(String::from(
            "Five Reasons Drinking Milk&shy; On the Toilet Is Kind&shy; Of a Game Changer"
        ))
    );
}

#[test]
fn a_sentence_on_lines_of_four_hundred() {
    assert_eq!(
        break_paragraph(FAIRY_TALE, 400, 10),
        Ok(String::from(
            "In olden times when wishing still helped one&shy;, there lived a king whose daughters were all&shy; beautiful; and the youngest was so beautiul&shy; that the sun itself, which has seen so much&shy;, was astonished whenever it shone in her face."
        ))
    );
    assert_eq!(
        break_paragraph(FAIRY_TALE, 300, 3),
        Err(BreakError::NoFeasibleBreak { ratio_max: 3 })
    );
}

#[test]
fn taking_the_markers_out_gives_the_text_back() {
    for target in [150u32, 200, 250, 300, 400, 500, 1000] {
        for ratio_max in [1u16, 2, 5, 10] {
            if let Ok(annotated) = break_paragraph(FAIRY_TALE, target, ratio_max) {
                assert_eq!(annotated.replace(MARKER, ""), FAIRY_TALE);
            }
        }
    }
}

#[test]
fn hyphens_and_punctuation_are_places_to_break() {
    assert_eq!(
        break_paragraph("well-known lime-tree", 60, 10),
        Ok(String::from("well&shy;-known&shy; lime&shy;-tree"))
    );
    assert_eq!(
        break_paragraph("so-so, no; yes. go", 40, 10),
        Ok(String::from("so-so&shy;, no&shy;; yes&shy;. go"))
    );
}

#[test]
fn a_dearer_hyphen_is_avoided() {
    // "ab-cd ef", lines of 40. The hyphen stands at 2, the space at 5.
    // Broken at the hyphen: 19 wide without stretch (100000) and the hyphen
    // (50), then 38 wide with 3 of stretch (ratio 2/3, 29): 100079.
    // Broken at the space: 37 wide without stretch (100000), then 20 wide
    // with 3 of stretch (ratio 20/3, 29620): 129620.
    let cheap = Config {
        target_width: 40,
        ratio_max: 10,
        hyphen_penalty_value: 50,
        reject_unrecognized: false,
    };
    assert_eq!(break_paragraph_with("ab-cd ef", &cheap), Ok(String::from("ab&shy;-cd ef")));
    // A hyphen of 29591 makes the two ways cost the same, and the earlier
    // point is kept; one more and the space is cheaper.
    let even = Config { hyphen_penalty_value: 29_591, ..cheap };
    assert_eq!(break_paragraph_with("ab-cd ef", &even), Ok(String::from("ab&shy;-cd ef")));
    let dear = Config { hyphen_penalty_value: 29_592, ..cheap };
    assert_eq!(break_paragraph_with("ab-cd ef", &dear), Ok(String::from("ab-cd&shy; ef")));
}

#[test]
fn rejecting_is_a_setting() {
    let strict = Config { reject_unrecognized: true, ..Config::default() };
    assert_eq!(
        break_paragraph_with("aa b\u{e9} cc", &strict),
        Err(BreakError::UnrecognizedCharacter { position: 4 })
    );
    assert_eq!(break_paragraph_with("aa bb cc", &strict), Ok(String::from("aa&shy; bb cc")));
}

#[test]
fn markers_stand_at_character_offsets_not_cluster_indices() {
    // m, a with a combining candrabindu, m, space, e, e: the space is node 3
    // and character 4.
    assert_eq!(
        break_paragraph("ma\u{310}m ee", 30, 10),
        Ok(String::from("ma\u{310}m&shy; ee"))
    );
    let parts = clusters(&["m", "a\u{310}", "m", " ", "e", "e"]);
    let config = Config { target_width: 30, ..Config::default() };
    assert_eq!(
        break_clusters("ma\u{310}m ee", &parts, &config),
        Ok(String::from("ma\u{310}m&shy; ee"))
    );
}

#[test]
fn break_nodes_agrees_with_break_paragraph() {
    let nodes = build("aa bb cc", 50, false).unwrap();
    assert_eq!(break_nodes(&nodes, 26, 10), Ok(vec![2, 5]));
    assert_eq!(break_nodes(&nodes, 60, 10), Ok(vec![2]));
}

#[test]
fn marks_go_before_the_clusters_that_are_named() {
    let parts = clusters(&["m", "a\u{310}", "m", " ", "e", "e"]);
    let text = "ma\u{310}m ee";
    assert_eq!(mark_breaks(text, &parts, &vec![3]), "ma\u{310}m&shy; ee");
    assert_eq!(mark_breaks(text, &parts, &vec![1, 2, 6]), "m&shy;a\u{310}&shy;m ee&shy;");
    assert_eq!(mark_breaks(text, &parts, &vec![]), text);
}

#[test]
fn a_text_has_no_more_characters_than_bytes() {
    assert_eq!(byte_length(""), 0);
    assert_eq!(byte_length("abc"), 3);
    assert_eq!(byte_length("h\u{e9}llo"), 6);
    assert_eq!(byte_length("\u{1f600}"), 4);
}
