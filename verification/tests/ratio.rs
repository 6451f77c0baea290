use linebreak::lines::ratio::{adjustment_ratio, Ratio};
use linebreak::lines::scanner::Breakpoint;

fn breakpoint(position: usize, width: u128, stretch: u128, shrink: u128) -> Breakpoint {
    Breakpoint {
        position,
        line_number: 0,
        total_width: width,
        total_stretchability: stretch,
        total_shrinkability: shrink,
        total_demerits: 0,
        predecessor: None,
    }
}

#[test]
fn a_line_of_the_target_width_has_ratio_zero() {
    let from = breakpoint(2, 20, 0, 0);
    let to = breakpoint(5, 46, 3, 2);
    assert_eq!(adjustment_ratio(&from, &to, 26), Ratio::Stretch { num: 0, den: 1 });
}

#[test]
fn a_narrow_line_stretches() {
    let from = breakpoint(0, 0, 0, 0);
    let to = breakpoint(5, 46, 3, 2);
    assert_eq!(adjustment_ratio(&from, &to, 52), Ratio::Stretch { num: 6, den: 3 });
}

#[test]
fn a_wide_line_shrinks() {
    let from = breakpoint(0, 0, 0, 0);
    let to = breakpoint(8, 72, 6, 4);
    assert_eq!(adjustment_ratio(&from, &to, 70), Ratio::Shrink { num: 2, den: 4 });
}

#[test]
fn a_narrow_line_without_stretch_is_infinitely_loose() {
    let from = breakpoint(0, 0, 0, 0);
    let to = breakpoint(2, 20, 0, 0);
    assert_eq!(adjustment_ratio(&from, &to, 26), Ratio::PosInfinity);
}

#[test]
fn a_wide_line_without_shrink_is_infinitely_tight() {
    let from = breakpoint(0, 0, 0, 0);
    let to = breakpoint(2, 20, 3, 0);
    assert_eq!(adjustment_ratio(&from, &to, 19), Ratio::NegInfinity);
}

#[test]
fn tightness_is_a_ratio_below_minus_one() {
    assert!(Ratio::NegInfinity.is_too_tight());
    assert!(Ratio::Shrink { num: 5, den: 4 }.is_too_tight());
    assert!(!Ratio::Shrink { num: 4, den: 4 }.is_too_tight());
    assert!(!Ratio::Stretch { num: 100, den: 1 }.is_too_tight());
    assert!(!Ratio::PosInfinity.is_too_tight());
}

#[test]
fn the_tolerance_is_a_closed_band() {
    assert!(Ratio::Shrink { num: 4, den: 4 }.is_within(0));
    assert!(!Ratio::Shrink { num: 5, den: 4 }.is_within(10));
    assert!(Ratio::Stretch { num: 0, den: 1 }.is_within(0));
    assert!(!Ratio::Stretch { num: 1, den: 1000 }.is_within(0));
    assert!(Ratio::Stretch { num: 30, den: 3 }.is_within(10));
    assert!(!Ratio::Stretch { num: 31, den: 3 }.is_within(10));
    assert!(Ratio::Stretch { num: 29, den: 3 }.is_within(10));
    assert!(!Ratio::PosInfinity.is_within(u16::MAX));
    assert!(!Ratio::NegInfinity.is_within(u16::MAX));
    assert!(!Ratio::Stretch { num: 0, den: 0 }.is_within(10));
}

#[test]
fn the_tolerance_holds_for_large_parts() {
    let den: u128 = u128::MAX / 4;
    assert!(Ratio::Stretch { num: den * 3, den }.is_within(3));
    assert!(!Ratio::Stretch { num: den * 3 + 1, den }.is_within(3));
    assert!(Ratio::Stretch { num: den * 3 - 1, den }.is_within(3));
}

#[test]
fn an_infinitely_loose_line_is_admissible() {
    assert!(Ratio::PosInfinity.is_admissible(0));
    assert!(!Ratio::NegInfinity.is_admissible(10));
    assert!(Ratio::Stretch { num: 6, den: 3 }.is_admissible(2));
    assert!(!Ratio::Stretch { num: 7, den: 3 }.is_admissible(2));
}

#[test]
fn demerits_are_a_hundred_times_the_cube() {
    assert_eq!(Ratio::Stretch { num: 0, den: 1 }.demerit(10), 0);
    assert_eq!(Ratio::Stretch { num: 1, den: 1 }.demerit(10), 100);
    assert_eq!(Ratio::Stretch { num: 2, den: 1 }.demerit(10), 800);
    assert_eq!(Ratio::Stretch { num: 10, den: 1 }.demerit(10), 100_000);
    assert_eq!(Ratio::Shrink { num: 1, den: 1 }.demerit(10), 100);
    assert_eq!(Ratio::Shrink { num: 1, den: 2 }.demerit(10), 12);
    assert_eq!(Ratio::Stretch { num: 4, den: 3 }.demerit(10), 236);
    assert_eq!(Ratio::Stretch { num: 1, den: 10 }.demerit(10), 0);
    assert_eq!(Ratio::Stretch { num: 65_535, den: 1 }.demerit(u16::MAX), 28_146_209_200_537_500);
}

#[test]
fn an_infinitely_loose_line_costs_the_most() {
    assert_eq!(Ratio::PosInfinity.demerit(10), 100_000);
    assert_eq!(Ratio::PosInfinity.demerit(1), 100);
    assert_eq!(Ratio::PosInfinity.demerit(0), 100);
    assert_eq!(Ratio::PosInfinity.demerit(u16::MAX), 28_146_209_200_537_500);
}
