use linebreak::lines::error::BreakError;
use linebreak::lines::graf::{Breakpoint, Graf};
use linebreak::lines::ratio::Ratio;

fn breakpoint(position: usize, width: u128, stretch: u128, shrink: u128) -> Breakpoint {
    Breakpoint {
        position,
        line_number: 0,
        total_width: width,
        total_stretchability: stretch,
        total_shrinkability: shrink,
        total_demerits: 0,
        predecessor: None,
    }
}

#[test]
fn a_graf_keeps_its_text() {
    let mut graf = Graf::new(String::from("aa bb cc"));
    assert_eq!(graf.get_plain_text(), "aa bb cc");
    graf.parse_nodes();
    assert_eq!(graf.get_plain_text(), "aa bb cc");
}

#[test]
fn a_graf_finds_its_feasible_breakpoints() {
    let mut graf = Graf::new(String::from("aa bb cc"));
    assert_eq!(
        graf.get_feasible_breakpoints(),
        vec![breakpoint(2, 18, 0, 0), breakpoint(5, 44, 3, 2)]
    );
    assert_eq!(
        graf.get_feasible_breakpoints(),
        vec![breakpoint(2, 18, 0, 0), breakpoint(5, 44, 3, 2)]
    );
}

#[test]
fn a_graf_without_glue_has_no_breakpoints() {
    let mut graf = Graf::new(String::from("abc"));
    assert_eq!(graf.get_feasible_breakpoints(), Vec::new());
    let mut empty = Graf::new(String::new());
    assert_eq!(empty.get_feasible_breakpoints(), Vec::new());
}

#[test]
fn a_graf_marks_its_line_ends() {
    let mut graf = Graf::new(String::from("aa bb cc"));
    assert_eq!(graf.get_hyphens(), Ok(String::from("aa&shy; bb cc")));
    let mut empty = Graf::new(String::new());
    assert_eq!(empty.get_hyphens(), Ok(String::new()));
}

#[test]
fn a_graf_reports_a_paragraph_that_cannot_be_broken() {
    let mut graf = Graf::new(String::from("Drinking Milk"));
    assert_eq!(graf.get_hyphens(), Err(BreakError::NoFeasibleBreak { ratio_max: 10 }));
    assert_eq!(graf.get_plain_text(), "Drinking Milk");
}

#[test]
fn a_graf_measures_the_line_between_two_breakpoints() {
    let mut graf = Graf::new(String::from("aa bb cc"));
    graf.parse_nodes();
    assert_eq!(graf.calculate_adjustment_ratio(0, 1, 26), Ratio::Stretch { num: 0, den: 1 });
    assert_eq!(graf.calculate_adjustment_ratio(0, 1, 30), Ratio::Stretch { num: 4, den: 3 });
    assert_eq!(graf.calculate_adjustment_ratio(0, 1, 25), Ratio::Shrink { num: 1, den: 2 });
    assert_eq!(graf.calculate_adjustment_ratio(1, 1, 25), Ratio::PosInfinity);
}
