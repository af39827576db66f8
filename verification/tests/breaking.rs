use newbreak::BreakOptions;
use newbreak::Line;
use newbreak::Node;
use newbreak::INFINITE_BADNESS;
use newbreak::nb_add_node;
use newbreak::nb_finalize;
use newbreak::nb_new;

fn plain_node(width: u64, stretch: u64, shrink: u64, breakable: bool, label: &str) -> Node {
    Node {
        width,
        breakable,
        penalty: 0,
        alternates: vec![],
        any_breakable: false,
        any_negative_penalties: false,
        stretch,
        shrink,
        stretch_contribution: vec![],
        shrink_contribution: vec![],
        original_index: 0,
        substitution_penalty: 0,
        debug_text: String::from(label),
        text: 0,
    }
}

fn make_some_stuff(count: usize) -> Vec<Node> {
    let mut nodelist = vec![];
    for i in 0..count {
        nodelist.push(plain_node(100, 0, 0, false, &format!("laa{:?}", i)));
        let stretch = if i == count - 1 { 1000000 } else { 15 };
        nodelist.push(plain_node(10, stretch, 3, true, " "));
    }
    nodelist
}

fn check_all_breakables_returned(nl: &[Node], lines: Vec<Line>) {
    let mut nonbreakablecount = 0;
    let mut nodesout = 0;
    for n in nl {
        if !n.breakable {
            nonbreakablecount += 1;
        }
    }
    for l in lines {
        for n in &nl[l.start..l.end] {
            if !n.breakable {
                nodesout += 1;
            }
        }
    }
    assert_eq!(nonbreakablecount, nodesout);
}

fn breaker_with(nodes: Vec<Node>, first_line: u64) -> newbreak::Linebreaker {
    let mut lb = nb_new(first_line);
    for n in nodes {
        nb_add_node(&mut lb, n);
    }
    lb
}

#[test]
fn test_nb_1() {
    let mut lb = breaker_with(make_some_stuff(2), 220);
    nb_finalize(&mut lb);
    let options = BreakOptions {
        full_justify: false,
        start: 0,
        end: lb.nodes.len() - 1,
        unacceptable_ratio: 500,
        line_penalty: 10,
    };
    let sol = lb.find_breakpoints(0, options);
    assert_eq!(sol.lines.len(), 1);
    check_all_breakables_returned(&lb.nodes, sol.lines);
}

#[test]
fn test_nb_2() {
    let mut lb = breaker_with(make_some_stuff(4), 220);
    nb_finalize(&mut lb);
    let options = BreakOptions {
        full_justify: false,
        start: 0,
        end: lb.nodes.len() - 1,
        unacceptable_ratio: 500,
        line_penalty: 10,
    };
    let sol = lb.find_breakpoints(0, options);
    assert_eq!(sol.lines.len(), 2);
    check_all_breakables_returned(&lb.nodes, sol.lines);
}

#[test]
fn two_pairs_exact_badness() {
    // Scenario A with explicit scores: the one line is nodes[0..3), ten units
    // short of 220 with 15 of stretch, so the fill term is
    // floor(100 * (10000 / 15001)^3) = 29, plus the default-free flat line
    // penalty of 10.
    let mut lb = breaker_with(make_some_stuff(2), 220);
    nb_finalize(&mut lb);
    let options = BreakOptions {
        full_justify: false,
        start: 0,
        end: lb.nodes.len() - 1,
        unacceptable_ratio: 500,
        line_penalty: 10,
    };
    let sol = lb.find_breakpoints(0, options);
    assert_eq!(sol.lines.len(), 1);
    assert_eq!(sol.total_badness, 39);
    assert_eq!(sol.lines[0].start, 0);
    assert_eq!(sol.lines[0].end, 3);
    assert_eq!(sol.lines[0].shortfall, 10);
    assert_eq!(sol.lines[0].total_stretch, 15);
    assert_eq!(sol.lines[0].total_shrink, 3);
    assert_eq!(sol.lines[0].ratio_permille, 954);
    assert_eq!(sol.lines[0].badness, 39);
}

#[test]
fn two_pairs_through_sentinel() {
    // With the range defaulted through the sentinel the exact fill at the
    // sentinel wins: one line of all four atoms, zero shortfall, badness 10
    // from the flat line penalty alone.
    let mut lb = breaker_with(make_some_stuff(2), 220);
    nb_finalize(&mut lb);
    let sol = lb.compute_breaks(false, 0, 0, 0, 0);
    assert_eq!(sol.lines.len(), 1);
    assert_eq!(sol.total_badness, 10);
    assert_eq!(sol.lines[0].shortfall, 0);
    assert_eq!(sol.lines[0].ratio_permille, 1000);
}

#[test]
fn boundary_single_node() {
    // One non-breakable node plus the sentinel, target wider than the node:
    // exactly one line whose badness reflects the positive shortfall (capped
    // fill term, since no stretch is available) plus the default line penalty.
    let mut lb = breaker_with(vec![plain_node(100, 0, 0, false, "word")], 200);
    nb_finalize(&mut lb);
    let sol = lb.compute_breaks(false, 0, 0, 0, 0);
    assert_eq!(sol.lines.len(), 1);
    assert_eq!(sol.lines[0].shortfall, 100);
    assert!(sol.lines[0].badness > 0);
    assert_eq!(sol.total_badness, i32::MAX as i64 + 10);
}

#[test]
fn trailing_glue_closes_final_line() {
    // A trailing glue node with stretch 1,000,000 stays eligible as the final
    // line's closing break however large the shortfall; the huge stretch
    // drives the fill term to zero.
    let mut lb = breaker_with(
        vec![plain_node(100, 0, 0, false, "word"), plain_node(10, 1000000, 3, true, " ")],
        10000,
    );
    nb_finalize(&mut lb);
    let sol = lb.compute_breaks(false, 0, 0, 0, 0);
    assert_eq!(sol.lines.len(), 1);
    assert_eq!(sol.lines[0].end, 2);
    assert_eq!(sol.lines[0].shortfall, 9890);
    assert_eq!(sol.total_badness, 10);
}

#[test]
fn identical_options_identical_solutions() {
    // Idempotence: the second identical call is answered from the cache and
    // returns the same solution, line for line.
    let mut lb = breaker_with(make_some_stuff(4), 220);
    nb_finalize(&mut lb);
    let first = lb.compute_breaks(false, 0, 0, 500, 10);
    let second = lb.compute_breaks(false, 0, 0, 500, 10);
    assert_eq!(first.total_badness, second.total_badness);
    assert_eq!(first.lines.len(), second.lines.len());
    for (a, b) in first.lines.iter().zip(second.lines.iter()) {
        assert_eq!(a.start, b.start);
        assert_eq!(a.end, b.end);
        assert_eq!(a.shortfall, b.shortfall);
        assert_eq!(a.total_stretch, b.total_stretch);
        assert_eq!(a.total_shrink, b.total_shrink);
        assert_eq!(a.ratio_permille, b.ratio_permille);
        assert_eq!(a.badness, b.badness);
        assert_eq!(a.options, b.options);
    }
}

#[test]
fn higher_line_penalty_no_more_lines() {
    // Monotonicity scenario: raising the flat line penalty never buys more
    // lines.
    let mut cheap = breaker_with(make_some_stuff(4), 220);
    nb_finalize(&mut cheap);
    let lo = cheap.compute_breaks(false, 0, 0, 500, 10);
    let mut dear = breaker_with(make_some_stuff(4), 220);
    nb_finalize(&mut dear);
    let hi = dear.compute_breaks(false, 0, 0, 500, 10000);
    assert!(hi.lines.len() <= lo.lines.len());
    assert_eq!(lo.lines.len(), 2);
}

#[test]
fn line_penalty_flips_to_fewer_lines() {
    // At target 300 both one- and two-line partitions of four pairs are
    // eligible.  A cheap line penalty picks the two even lines; a penalty
    // past the crossing point picks the single overfull line, never more
    // lines than before.
    let mut cheap = breaker_with(make_some_stuff(4), 300);
    nb_finalize(&mut cheap);
    let lo = cheap.compute_breaks(false, 0, cheap.nodes.len() - 1, 500, 10);
    assert_eq!(lo.lines.len(), 2);
    assert_eq!(lo.total_badness, 2 * (21595 + 10));
    let mut dear = breaker_with(make_some_stuff(4), 300);
    nb_finalize(&mut dear);
    let hi = dear.compute_breaks(false, 0, dear.nodes.len() - 1, 500, 300000);
    assert_eq!(hi.lines.len(), 1);
    assert_eq!(hi.total_badness, 301271 + 300000);
}

#[test]
fn unbreakable_range_is_infeasible() {
    // A range with no breakable rendering yields the explicit infeasibility
    // marker: no lines, maximal badness, never a partial solution.
    let mut lb = breaker_with(make_some_stuff(2), 220);
    nb_finalize(&mut lb);
    let sol = lb.compute_breaks(false, 0, 1, 0, 0);
    assert_eq!(sol.lines.len(), 0);
    assert_eq!(sol.total_badness, INFINITE_BADNESS);
}

#[test]
fn negative_break_penalty_drives_badness_negative() {
    // The fill term is never negative, but a strongly negative penalty on the
    // line's last node takes the whole badness below zero.
    let mut nodes = make_some_stuff(2);
    nodes[2].penalty = -10000;
    let mut lb = breaker_with(nodes, 220);
    nb_finalize(&mut lb);
    let options = BreakOptions {
        full_justify: false,
        start: 0,
        end: lb.nodes.len() - 1,
        unacceptable_ratio: 500,
        line_penalty: 10,
    };
    let sol = lb.find_breakpoints(0, options);
    assert_eq!(sol.lines.len(), 1);
    assert_eq!(sol.total_badness, 29 - 10000 + 10);
}

#[test]
fn substitution_penalties_are_charged() {
    // Every node kept in a line is charged its substitution penalty.
    let mut nodes = make_some_stuff(2);
    for n in nodes.iter_mut() {
        n.substitution_penalty = 5;
    }
    let mut lb = breaker_with(nodes, 220);
    nb_finalize(&mut lb);
    let options = BreakOptions {
        full_justify: false,
        start: 0,
        end: lb.nodes.len() - 1,
        unacceptable_ratio: 500,
        line_penalty: 10,
    };
    let sol = lb.find_breakpoints(0, options);
    assert_eq!(sol.lines.len(), 1);
    assert_eq!(sol.total_badness, 39 + 3 * 5);
}

#[test]
fn preparation_aggregates_alternates() {
    // Preparation assigns positions, aggregates breakability and negative
    // penalties over alternates, and defaults empty elasticity weights.
    let mut with_alt = plain_node(100, 0, 0, false, "word");
    let mut alt = plain_node(90, 0, 0, true, "wo-rd");
    alt.penalty = -50;
    with_alt.alternates = vec![alt];
    let mut lb = breaker_with(vec![with_alt, plain_node(10, 15, 3, true, " ")], 220);
    nb_finalize(&mut lb);
    assert_eq!(lb.nodes.len(), 3);
    assert_eq!(lb.nodes[0].original_index, 0);
    assert!(lb.nodes[0].any_breakable);
    assert!(lb.nodes[0].any_negative_penalties);
    assert!(!lb.nodes[0].breakable);
    assert_eq!(lb.nodes[0].stretch_contribution, vec![1]);
    assert_eq!(lb.nodes[0].alternates[0].original_index, 0);
    assert_eq!(lb.nodes[1].original_index, 1);
    assert!(lb.nodes[1].any_breakable);
    assert!(!lb.nodes[1].any_negative_penalties);
    assert_eq!(lb.nodes[2].original_index, 2);
    assert!(lb.nodes[2].any_breakable);
    assert_eq!(lb.nodes[2].width, 0);
}

#[test]
fn overflow_lines_reuse_last_width() {
    // The target table holds one entry, so every line index resolves to it.
    let lb = nb_new(220);
    assert_eq!(lb.target_for(0), 220);
    assert_eq!(lb.target_for(7), 220);
}
