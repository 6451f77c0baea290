use linebreak::lines::constants::{
    box_for, comma_glue, glue_for, hyphen_penalty, period_glue, semicolon_glue, width_of,
    word_glue, Box, Glue, Penalty, HYPHEN_PENALTY_VALUE, RATIO_MAX, TARGET_LINE_LENGTH,
};
use linebreak::lines::nodes::{BoxNode, GlueNode, Node};

#[test]
fn letters_have_the_widths_of_the_table() {
    assert_eq!(width_of('a'), Some(9));
    assert_eq!(width_of('m'), Some(15));
    assert_eq!(width_of('C'), Some(13));
    assert_eq!(width_of('c'), Some(8));
    assert_eq!(width_of('I'), Some(6));
    assert_eq!(width_of('i'), Some(5));
    assert_eq!(width_of('\''), Some(5));
    assert_eq!(width_of('7'), None);
}

#[test]
fn glue_follows_words_and_punctuation() {
    assert_eq!(glue_for(' '), Some(Glue { width: 6, stretchability: 3, shrinkability: 2 }));
    assert_eq!(glue_for(','), Some(Glue { width: 6, stretchability: 4, shrinkability: 2 }));
    assert_eq!(glue_for(';'), Some(Glue { width: 6, stretchability: 4, shrinkability: 1 }));
    assert_eq!(glue_for('.'), Some(Glue { width: 8, stretchability: 6, shrinkability: 1 }));
    assert_eq!(glue_for('a'), None);
}

#[test]
fn hyphen_penalty_is_flagged() {
    assert_eq!(hyphen_penalty(50), Penalty { width: 0, penalty: 50, flagged: true });
}

#[test]
fn box_node_from_char_looks_the_width_up() {
    assert_eq!(BoxNode::from_char('w'), BoxNode { width: 13, grapheme: 'w' });
    assert_eq!(BoxNode::from_char('?'), BoxNode { width: 0, grapheme: '?' });
    assert_eq!(BoxNode::from_values(4, 'x').width(), 4);
    assert_eq!(BoxNode::from_char('w').node(), Node::Box { width: 13 });
}

#[test]
fn glue_node_from_char_looks_the_glue_up() {
    assert_eq!(
        GlueNode::from_char('.'),
        GlueNode { width: 8, stretchability: 6, shrinkability: 1, grapheme: '.' }
    );
    assert_eq!(
        GlueNode::from_char('a'),
        GlueNode { width: 0, stretchability: 0, shrinkability: 0, grapheme: 'a' }
    );
    assert_eq!(GlueNode::from_values(1, 2, 3, ' ').width(), 1);
    assert_eq!(
        GlueNode::from_values(1, 2, 3, ' ').node(),
        Node::Glue { width: 1, stretchability: 2, shrinkability: 3 }
    );
}

#[test]
fn the_table_hands_out_boxes() {
    assert_eq!(box_for('m'), Some(Box { width: 15 }));
    assert_eq!(box_for('-'), Some(Box { width: 6 }));
    assert_eq!(box_for(' '), Some(Box { width: 5 }));
    assert_eq!(box_for('\u{e9}'), None);
}

#[test]
fn every_letter_has_its_width() {
    let widths = [
        9, 10, 8, 10, 8, 6, 9, 10, 5, 6, 10, 5, 15, 10, 9, 10, 10, 7, 7, 7, 10, 9, 13, 10, 10, 8,
    ];
    for (letter, width) in ('a'..='z').zip(widths) {
        assert_eq!(width_of(letter), Some(width));
        let upper = letter.to_ascii_uppercase();
        if upper != 'C' && upper != 'I' {
            assert_eq!(width_of(upper), Some(width));
        }
    }
    for mark in [',', ';', '.', '\'', ' '] {
        assert_eq!(width_of(mark), Some(5));
    }
    assert_eq!(width_of('-'), Some(6));
}

#[test]
fn the_four_kinds_of_glue() {
    assert_eq!(word_glue(), Glue { width: 6, stretchability: 3, shrinkability: 2 });
    assert_eq!(comma_glue(), Glue { width: 6, stretchability: 4, shrinkability: 2 });
    assert_eq!(semicolon_glue(), Glue { width: 6, stretchability: 4, shrinkability: 1 });
    assert_eq!(period_glue(), Glue { width: 8, stretchability: 6, shrinkability: 1 });
}

#[test]
fn the_usual_settings() {
    assert_eq!(TARGET_LINE_LENGTH, 60);
    assert_eq!(RATIO_MAX, 10);
    assert_eq!(HYPHEN_PENALTY_VALUE, 50);
}

#[test]
fn nodes_answer_for_their_kind() {
    let glue = Node::Glue { width: 6, stretchability: 3, shrinkability: 2 };
    let penalty = Node::Penalty { width: 1, penalty: -5, flagged: true };
    let plain = Node::Penalty { width: 1, penalty: 5, flagged: false };
    let letter = Node::Box { width: 9 };
    assert_eq!((glue.width(), glue.stretchability(), glue.shrinkability()), (6, 3, 2));
    assert_eq!((glue.penalty(), glue.is_flagged()), (0, false));
    assert_eq!((penalty.width(), penalty.stretchability(), penalty.shrinkability()), (1, 0, 0));
    assert_eq!((penalty.penalty(), penalty.is_flagged()), (-5, true));
    assert_eq!((plain.penalty(), plain.is_flagged()), (5, false));
    assert_eq!((letter.width(), letter.stretchability(), letter.shrinkability()), (9, 0, 0));
    assert_eq!((letter.penalty(), letter.is_flagged()), (0, false));
}
