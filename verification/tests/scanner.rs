use linebreak::lines::nodes::Node;
use linebreak::lines::scanner::{
    calculate_breakpoint, is_feasible, scan, start_breakpoint, Breakpoint,
};

fn letter() -> Node {
    Node::Box { width: 10 }
}

fn space() -> Node {
    Node::Glue { width: 6, stretchability: 3, shrinkability: 2 }
}

fn three_words() -> Vec<Node> {
    vec![letter(), letter(), space(), letter(), letter(), space(), letter(), letter()]
}

fn breakpoint(position: usize, width: u128, stretch: u128, shrink: u128) -> Breakpoint {
    Breakpoint {
        position,
        line_number: 0,
        total_width: width,
        total_stretchability: stretch,
        total_shrinkability: shrink,
        total_demerits: 0,
        predecessor: None,
    }
}

#[test]
fn scan_finds_glue_after_a_box() {
    let feasible = scan(&three_words());
    assert_eq!(feasible, vec![breakpoint(2, 20, 0, 0), breakpoint(5, 46, 3, 2)]);
}

#[test]
fn scan_totals_are_prefix_sums() {
    let nodes = three_words();
    for b in scan(&nodes) {
        let width: u128 = nodes[..b.position].iter().map(|n| n.width() as u128).sum();
        let stretch: u128 = nodes[..b.position].iter().map(|n| n.stretchability() as u128).sum();
        let shrink: u128 = nodes[..b.position].iter().map(|n| n.shrinkability() as u128).sum();
        assert_eq!(b.total_width, width);
        assert_eq!(b.total_stretchability, stretch);
        assert_eq!(b.total_shrinkability, shrink);
    }
}

#[test]
fn glue_without_a_box_before_it_is_no_breakpoint() {
    let nodes = vec![space(), letter(), space(), space(), letter()];
    assert!(!is_feasible(&nodes, 0));
    assert!(!is_feasible(&nodes, 1));
    assert!(is_feasible(&nodes, 2));
    assert!(!is_feasible(&nodes, 3));
    assert!(!is_feasible(&nodes, 4));
    assert!(!is_feasible(&nodes, 5));
    assert_eq!(scan(&nodes), vec![breakpoint(2, 16, 3, 2)]);
}

#[test]
fn only_flagged_penalties_are_breakpoints() {
    let nodes = vec![
        Node::Penalty { width: 0, penalty: 50, flagged: true },
        letter(),
        Node::Penalty { width: 0, penalty: 50, flagged: false },
        letter(),
        Node::Penalty { width: 4, penalty: -7, flagged: true },
    ];
    assert_eq!(scan(&nodes), vec![breakpoint(0, 0, 0, 0), breakpoint(4, 20, 0, 0)]);
}

#[test]
fn scan_of_nothing_is_empty() {
    assert_eq!(scan(&Vec::new()), Vec::new());
    assert_eq!(scan(&vec![letter(), letter()]), Vec::new());
}

#[test]
fn calculate_breakpoint_adds_the_gap() {
    let nodes = three_words();
    let first = calculate_breakpoint(&nodes, &start_breakpoint(), 2);
    assert_eq!(first, breakpoint(2, 20, 0, 0));
    let second = calculate_breakpoint(&nodes, &first, 5);
    assert_eq!(second, breakpoint(5, 46, 3, 2));
    let end = calculate_breakpoint(&nodes, &second, 8);
    assert_eq!(end, breakpoint(8, 72, 6, 4));
    assert_eq!(calculate_breakpoint(&nodes, &second, 5), second);
}

#[test]
fn penalty_width_counts_in_the_totals() {
    let nodes = vec![
        letter(),
        Node::Penalty { width: 4, penalty: 50, flagged: true },
        letter(),
        space(),
    ];
    assert_eq!(scan(&nodes), vec![breakpoint(1, 10, 0, 0), breakpoint(3, 24, 0, 0)]);
}
