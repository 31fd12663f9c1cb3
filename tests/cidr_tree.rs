use cidr_reduce::cidr::{Cidr, ParseError};
use cidr_reduce::tree::Tree;

fn bits(s: &str) -> Vec<bool> {
    s.chars().map(|c| if c == '0' { false } else { true }).collect()
}

fn parse(s: &str) -> Cidr {
    Cidr::parse(s).unwrap()
}

fn fraction(tree: &Tree) -> f64 {
    tree.coverage() as f64 / 4294967296.0
}

fn texts(tree: &Tree) -> Vec<String> {
    tree.print()
}

#[test]
fn check_cidr_to_bits() {
    assert_eq!(
        parse("0.0.0.0/32").bits(),
        &bits("00000000000000000000000000000000")
    );
    assert_eq!(
        parse("255.0.255.0/32").bits(),
        &bits("11111111000000001111111100000000")
    );
    assert_eq!(
        parse("1.1.1.1/32").bits(),
        &bits("00000001000000010000000100000001")
    );
    assert_eq!(
        parse("1.2.3.4/32").bits(),
        &bits("00000001000000100000001100000100")
    );
    assert_eq!(
        parse("3.5.7.9/32").bits(),
        &bits("00000011000001010000011100001001")
    );
}

#[test]
fn tree_insert() {
    let cidrs = vec![
        parse("255.0.0.0/8"),
        parse("255.100.0.0/16"),
        parse("254.100.0.0/16"),
        parse("13.14.15.16/32"),
    ];
    let mut tree = Tree::new();

    cidrs.iter().for_each(|c| tree.insert(c));

    assert_eq!(tree.cidrs(), 3);
    assert_eq!(tree.nodes(), 1 + 8 + 9 + 32);
    assert_eq!(
        fraction(&tree),
        1.0 / 256.0 + 1.0 / 65536.0 + 1.0 / 4294967296.0
    );
}

#[test]
fn cidr_parse() {
    assert_eq!(parse("1.2.3.4/8").to_pretty_string(), "1.0.0.0/8");
    assert_eq!(parse("42.43.44.45/24").to_pretty_string(), "42.43.44.0/24");
    assert_eq!(
        parse("255.255.255.255/32").to_pretty_string(),
        "255.255.255.255/32"
    );
}

#[test]
fn parse_rejects_malformed_text() {
    assert_eq!(Cidr::parse("1.2.3/8").unwrap_err(), ParseError::Grouping);
    assert_eq!(Cidr::parse("1.2.3.4.5/8").unwrap_err(), ParseError::Grouping);
    assert_eq!(Cidr::parse("1.2.3.256/8").unwrap_err(), ParseError::Octet);
    assert_eq!(Cidr::parse("1.2..4/8").unwrap_err(), ParseError::Octet);
    assert_eq!(Cidr::parse("a.2.3.4/8").unwrap_err(), ParseError::Octet);
    assert_eq!(Cidr::parse("1.2.3.4/33").unwrap_err(), ParseError::Length);
    assert_eq!(Cidr::parse("1.2.3.4").unwrap_err(), ParseError::Length);
    assert_eq!(Cidr::parse("1.2.3.4/").unwrap_err(), ParseError::Length);
    assert_eq!(Cidr::parse("1.2.3.4/8/9").unwrap_err(), ParseError::Length);
    assert_eq!(Cidr::parse("").unwrap_err(), ParseError::Length);
}

#[test]
fn parse_edge_lengths() {
    assert_eq!(parse("9.9.9.9/0").size(), 0);
    assert_eq!(parse("9.9.9.9/0").to_pretty_string(), "0.0.0.0/0");
    assert_eq!(parse("000.010.255.1/32").to_pretty_string(), "0.10.255.1/32");
    assert_eq!(parse("128.0.0.0/1").bits(), &vec![true]);
}

#[test]
fn get_bits_takes_the_first_bits() {
    assert_eq!(Cidr::get_bits("1.2.3.4", 12).unwrap(), bits("000000010000"));
    assert_eq!(Cidr::get_bits("1.2.3.4", 40).unwrap().len(), 32);
    assert_eq!(Cidr::get_bits("1.2.3", 8).unwrap_err(), ParseError::Grouping);
    assert_eq!(Cidr::get_bits("1.2.3.999", 8).unwrap_err(), ParseError::Octet);
}

#[test]
fn push_and_pop() {
    let c = parse("10.0.0.0/8");
    assert_eq!(c.push(true).to_pretty_string(), "10.128.0.0/9");
    assert_eq!(c.push(false).size(), 9);
    assert_eq!(c.pop().to_pretty_string(), "10.0.0.0/7");
    assert_eq!(c.size(), 8);
    assert_eq!(parse("0.0.0.0/0").pop().size(), 0);
}

#[test]
fn canonical_text_round_trips() {
    for text in ["1.2.3.4/8", "42.43.44.45/24", "200.1.255.7/19", "0.0.0.1/0", "8.8.8.8/32"] {
        let once = parse(text).to_pretty_string();
        let twice = parse(&once).to_pretty_string();
        assert_eq!(once, twice);
        assert_eq!(parse(&once).bits(), parse(text).bits());
    }
}

#[test]
fn fresh_tree_is_empty() {
    let tree = Tree::new();
    assert_eq!(tree.cidrs(), 0);
    assert_eq!(tree.nodes(), 1);
    assert_eq!(tree.coverage(), 0);
    assert!(texts(&tree).is_empty());
    let best = tree.best_coverage().unwrap();
    assert_eq!(best.cost, 4294967296);
    assert_eq!(best.cidr.to_pretty_string(), "0.0.0.0/0");
}

#[test]
fn nested_insert_changes_nothing() {
    let mut tree = Tree::new();
    tree.insert(&parse("10.0.0.0/8"));
    let (c, n, v) = (tree.cidrs(), tree.nodes(), tree.coverage());
    tree.insert(&parse("10.1.2.0/24"));
    tree.insert(&parse("10.0.0.0/8"));
    assert_eq!((tree.cidrs(), tree.nodes(), tree.coverage()), (c, n, v));
    assert_eq!(texts(&tree), vec!["10.0.0.0/8".to_string()]);
}

#[test]
fn all_addresses_of_a_block_collapse() {
    let mut tree = Tree::new();
    for last in 0..4 {
        tree.insert(&parse(&format!("10.0.0.{}/32", last)));
    }
    assert_eq!(tree.cidrs(), 1);
    assert_eq!(tree.nodes(), 31);
    assert_eq!(tree.coverage(), 4);
    assert_eq!(texts(&tree), vec!["10.0.0.0/30".to_string()]);
}

#[test]
fn sibling_blocks_merge_into_parent() {
    let mut tree = Tree::new();
    tree.insert(&parse("10.0.0.0/9"));
    tree.insert(&parse("10.128.0.0/9"));
    assert_eq!(texts(&tree), vec!["10.0.0.0/8".to_string()]);
    assert_eq!(tree.nodes(), 9);
}

#[test]
fn coverage_never_falls() {
    let mut tree = Tree::new();
    let mut last = tree.coverage();
    for text in ["1.2.3.4/32", "1.2.3.0/24", "1.2.3.9/32", "200.0.0.0/6", "1.0.0.0/8"] {
        tree.insert(&parse(text));
        assert!(tree.coverage() >= last);
        assert!(tree.coverage() <= 4294967296);
        last = tree.coverage();
    }
    assert_eq!(last, (1 << 24) + (1 << 26));
}

#[test]
fn outputs_come_in_address_order() {
    let mut tree = Tree::new();
    for text in ["192.168.1.0/24", "10.0.0.0/8", "172.16.0.0/12"] {
        tree.insert(&parse(text));
    }
    assert_eq!(
        texts(&tree),
        vec![
            "10.0.0.0/8".to_string(),
            "172.16.0.0/12".to_string(),
            "192.168.1.0/24".to_string()
        ]
    );
    let outs: Vec<String> = tree.outputs().iter().map(|c| c.to_pretty_string()).collect();
    assert_eq!(outs, texts(&tree));
}

#[test]
fn tree_listing_shows_paths() {
    let mut tree = Tree::new();
    tree.insert(&parse("10.0.0.0/8"));
    tree.insert(&parse("128.0.0.0/1"));
    assert_eq!(
        tree.print_tree(),
        vec!["00001010 10.0.0.0/8".to_string(), "1 128.0.0.0/1".to_string()]
    );
}

#[test]
fn best_candidate_is_cheapest() {
    let mut tree = Tree::new();
    tree.insert(&parse("10.0.0.0/32"));
    let best = tree.best_coverage().unwrap();
    assert_eq!(best.cost, 1);
    assert_eq!(best.cidrs, 1);
    assert_eq!(best.cidr.to_pretty_string(), "10.0.0.0/31");
}

#[test]
fn equal_costs_prefer_the_lower_block() {
    let mut tree = Tree::new();
    tree.insert(&parse("10.0.0.0/32"));
    tree.insert(&parse("10.0.0.2/32"));
    let best = tree.best_coverage().unwrap();
    assert_eq!(best.cost, 1);
    assert_eq!(best.cidr.to_pretty_string(), "10.0.0.0/31");
}

#[test]
fn equal_costs_prefer_the_shorter_block() {
    let mut tree = Tree::new();
    tree.insert(&parse("10.0.0.0/31"));
    tree.insert(&parse("10.0.0.2/32"));
    let best = tree.best_coverage().unwrap();
    assert_eq!(best.cost, 1);
    assert_eq!(best.cidr.to_pretty_string(), "10.0.0.0/30");
}

fn scattered() -> Tree {
    let mut tree = Tree::new();
    for text in [
        "10.0.0.1/32",
        "10.0.0.2/32",
        "10.0.0.9/32",
        "10.0.1.4/32",
        "172.16.5.5/32",
        "192.168.0.1/32",
        "192.168.0.3/32",
    ] {
        tree.insert(&parse(text));
    }
    tree
}

#[test]
fn reduction_reaches_the_bound() {
    let mut tree = scattered();
    assert_eq!(tree.cidrs(), 7);
    let start = tree.coverage();
    let progress = tree.reduce(3);
    assert!(tree.cidrs() <= 3);
    assert_eq!(progress[0], (start, 7));
    for w in progress.windows(2) {
        assert!(w[0].0 < w[1].0);
        assert!(w[0].1 >= w[1].1);
    }
    for p in &progress {
        assert!(p.1 > 3);
    }

    let mut single = scattered();
    let best = single.best_coverage().unwrap().cidr.clone();
    single.insert(&best);
    assert!(tree.coverage() >= single.coverage());
    assert!(single.coverage() > start);
}

#[test]
fn reduction_to_nothing_ends_at_the_root() {
    let mut tree = scattered();
    tree.reduce(0);
    assert_eq!(tree.cidrs(), 1);
    assert_eq!(texts(&tree), vec!["0.0.0.0/0".to_string()]);
    assert!(tree.best_coverage().is_none());
}

#[test]
fn reduction_within_bound_does_nothing() {
    let mut tree = scattered();
    let progress = tree.reduce(7);
    assert!(progress.is_empty());
    assert_eq!(tree.cidrs(), 7);
}
