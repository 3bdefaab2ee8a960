use etsp_genetic::genome::{crossover_2ofsprings, same_len, Genome};
use etsp_genetic::node::Node;

fn points(n: i64) -> Vec<Node> {
    (1..=n).map(|y| Node::new(1, y)).collect()
}

#[test]
fn test_compare1() {
    let warsaw = Node::new(1, 1);
    let paris = Node::new(2, 2);

    let chromosome1 = Genome::new(vec![warsaw, paris]);
    let chromosome2 = Genome::new(vec![warsaw, paris]);

    assert_eq!(chromosome1 == chromosome2, true);
}

#[test]
fn genome_test_compare2() {
    let warsaw = Node::new(1, 1);
    let paris = Node::new(2, 2);
    let povis = Node::new(2, 3);

    let chromosome1 = Genome::new(vec![warsaw, paris]);
    let chromosome2 = Genome::new(vec![warsaw, povis]);

    assert_eq!(chromosome1 == chromosome2, false);
}

#[test]
fn test_mutate() {
    let warsaw = Node::new(1, 1);
    let paris = Node::new(1, 2);
    let povis = Node::new(1, 3);
    let wieden = Node::new(1, 4);
    let vengard = Node::new(1, 4);

    let mut chromosome = Genome::new(vec![warsaw, paris, povis, wieden, vengard]);
    let chromosome_before = Genome::new(vec![paris, warsaw, wieden, povis, vengard]);

    let mutation: Vec<[usize; 2]> = vec![[0, 1], [2, 3]];
    chromosome.mutate(mutation);

    assert_eq!(chromosome_before == chromosome, true);
}

#[test]
fn test_mutate2() {
    let warsaw = Node::new(1, 1);
    let paris = Node::new(1, 2);
    let povis = Node::new(1, 3);
    let wieden = Node::new(1, 4);
    let vengard = Node::new(1, 4);

    let mut chromosome = Genome::new(vec![warsaw, paris, povis, wieden, vengard]);
    let chromosome_before = Genome::new(vec![paris, povis, wieden, vengard, warsaw]);
    let mutation: Vec<[usize; 2]> = vec![[0, 1], [1, 2], [2, 3], [3, 4]];
    chromosome.mutate(mutation);

    assert_eq!(chromosome_before == chromosome, true);
}

#[test]
fn mutate_distinct_points_in_order() {
    let p = points(5);
    let mut chromosome = Genome::new(p.clone());
    chromosome.mutate(vec![[0, 1], [2, 3]]);
    assert_eq!(chromosome.get_nodes(), vec![p[1], p[0], p[3], p[2], p[4]]);

    let mut rotated = Genome::new(p.clone());
    rotated.mutate(vec![[0, 1], [1, 2], [2, 3], [3, 4]]);
    assert_eq!(rotated.get_nodes(), vec![p[1], p[2], p[3], p[4], p[0]]);
}

#[test]
fn mutate_same_position_keeps_tour() {
    let p = points(3);
    let mut chromosome = Genome::new(p.clone());
    chromosome.mutate(vec![[1, 1]]);
    assert_eq!(chromosome.get_nodes(), p);
}

#[test]
fn test_crossover() {
    let _1 = Node::new(1, 1);
    let _2 = Node::new(1, 2);
    let _3 = Node::new(1, 3);
    let _4 = Node::new(1, 4);
    let _5 = Node::new(1, 5);
    let _6 = Node::new(1, 6);
    let _7 = Node::new(1, 7);
    let _8 = Node::new(1, 8);

    let parent_1 = Genome::new(vec![_3, _4, _8, _2, _7, _1, _6, _5]);
    let parent_2 = Genome::new(vec![_4, _2, _5, _1, _6, _8, _3, _7]);

    let (offspring_1, offspring_2) = crossover_2ofsprings(&parent_1, &parent_2, 3, 5);

    assert_eq!(offspring_1 == Genome::new(vec![_5, _6, _8, _2, _7, _1, _3, _4]), true);
    assert_eq!(offspring_2 == Genome::new(vec![_4, _2, _7, _1, _6, _8, _5, _3]), true);
}

#[test]
fn crossover_whole_but_last_segment() {
    let p = points(4);
    let parent_1 = Genome::new(vec![p[0], p[1], p[2], p[3]]);
    let parent_2 = Genome::new(vec![p[3], p[2], p[1], p[0]]);
    let (offspring_1, offspring_2) = crossover_2ofsprings(&parent_1, &parent_2, 0, 2);
    assert_eq!(offspring_1.get_nodes(), vec![p[0], p[1], p[2], p[3]]);
    assert_eq!(offspring_2.get_nodes(), vec![p[3], p[2], p[1], p[0]]);
}

#[test]
fn crossover_cursor_wraps_modulo_end() {
    let p = points(5);
    let parent_1 = Genome::new(vec![p[0], p[1], p[2], p[3], p[4]]);
    let parent_2 = Genome::new(vec![p[4], p[3], p[2], p[1], p[0]]);
    // Segment [1, 2] of parent_1 is [2, 3]; parent_2 is scanned as 2, 1, 5, 4, 3.
    // 1 goes in at 2, the cursor wraps to 3 % 2 = 1; 5 goes in at 1, then 4 at 0.
    let (offspring_1, _) = crossover_2ofsprings(&parent_1, &parent_2, 1, 2);
    assert_eq!(offspring_1.get_nodes(), vec![p[3], p[1], p[4], p[2], p[0]]);
}

#[test]
fn crossover_keeps_points_of_both_parents() {
    let p = points(8);
    let parent_1 = Genome::new(vec![p[2], p[3], p[7], p[1], p[6], p[0], p[5], p[4]]);
    let parent_2 = Genome::new(vec![p[3], p[1], p[4], p[0], p[5], p[7], p[2], p[6]]);
    for start in 0..7 {
        for end in (start + 1)..8 {
            let (a, b) = crossover_2ofsprings(&parent_1, &parent_2, start, end);
            for child in [a, b] {
                let mut nodes = child.get_nodes();
                assert_eq!(nodes.len(), 8);
                nodes.sort_by_key(|n| (n.get_x(), n.get_y()));
                assert_eq!(nodes, p);
            }
        }
    }
}

#[test]
fn genome_test_as_string() {
    let _1 = Node::new(1, 1);
    let _2 = Node::new(1, 2);
    let _3 = Node::new(1, 3);
    let _4 = Node::new(1, 4);
    let _5 = Node::new(1, 5);
    let _6 = Node::new(1, 6);
    let _7 = Node::new(1, 7);
    let _8 = Node::new(1, 8);

    let parent_1 = Genome::new(vec![_1, _2, _3, _4, _5, _6, _7, _8]);
    assert_eq!(
        parent_1.as_string(),
        "Genome: (1 , 1) | (1 , 2) | (1 , 3) | (1 , 4) | (1 , 5) | (1 , 6) | (1 , 7) | (1 , 8) | "
    );
    println!("{:?}", parent_1.as_string());
}

#[test]
fn genome_as_string_empty() {
    assert_eq!(Genome::new(vec![]).as_string(), "Genome: ");
}

#[test]
fn same_len_detects_difference() {
    let p = points(3);
    let equal = vec![Genome::new(p.clone()), Genome::new(p.clone())];
    assert!(same_len(&equal));
    let unequal = vec![Genome::new(p.clone()), Genome::new(vec![p[0]])];
    assert!(!same_len(&unequal));
    assert!(same_len(&vec![Genome::new(vec![])]));
}

#[test]
fn new_random_genome_has_distinct_points_in_range() {
    for _ in 0..20 {
        let g = Genome::new_random(10, 0, 4);
        let nodes = g.get_nodes();
        assert_eq!(g.get_len(), 10);
        for (i, a) in nodes.iter().enumerate() {
            assert!(a.get_x() >= 0 && a.get_x() < 4 && a.get_y() >= 0 && a.get_y() < 4);
            for b in nodes.iter().skip(i + 1) {
                assert_ne!(a, b);
            }
        }
    }
}

#[test]
fn new_random_genome_fills_the_whole_grid() {
    let g = Genome::new_random(4, 3, 5);
    let mut nodes = g.get_nodes();
    nodes.sort_by_key(|n| (n.get_x(), n.get_y()));
    assert_eq!(nodes, vec![Node::new(3, 3), Node::new(3, 4), Node::new(4, 3), Node::new(4, 4)]);
}

#[test]
fn new_random_genome_empty() {
    assert_eq!(Genome::new_random(0, 5, 5).get_len(), 0);
}

#[test]
fn mutate_random_keeps_points() {
    let p = points(6);
    for n in 0..=36 {
        let mut g = Genome::new(p.clone());
        g.mutate_random(n);
        let mut nodes = g.get_nodes();
        nodes.sort_by_key(|n| (n.get_x(), n.get_y()));
        assert_eq!(nodes, p);
    }
}

#[test]
fn duplicate_and_same_as() {
    let p = points(3);
    let g = Genome::new(p.clone());
    let copy = g.duplicate();
    assert!(g.same_as(&copy));
    assert_eq!(copy.get_nodes(), p);
    assert!(!g.same_as(&Genome::new(vec![p[1], p[0], p[2]])));
}

#[test]
fn crossover_with_repeated_points_in_segment() {
    let p = points(4);
    let parent_1 = Genome::new(vec![p[0], p[0], p[1], p[2]]);
    let parent_2 = Genome::new(vec![p[2], p[1], p[0], p[3]]);
    // Segment [0, 1] is [1, 1]; 2, 3 and 4 come in once each, the cursor
    // wrapping modulo 1 to the front.
    let (offspring_1, _) = crossover_2ofsprings(&parent_1, &parent_2, 0, 1);
    assert_eq!(offspring_1.get_nodes(), vec![p[1], p[2], p[0], p[0], p[3]]);
}
