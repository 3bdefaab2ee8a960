use etsp_genetic::genome::Genome;
use etsp_genetic::node::Node;
use etsp_genetic::population::{best_index, sorted_prefix, ParentPool, Population, PopulationError};

fn fitness(g: &Genome) -> f64 {
    let nodes = g.get_nodes();
    let len = nodes.len();
    let dist = |a: &Node, b: &Node| {
        let dx = (a.get_x() - b.get_x()) as f64;
        let dy = (a.get_y() - b.get_y()) as f64;
        (dx * dx + dy * dy).sqrt()
    };
    let mut result = 0.0;
    for i in 0..len - 1 {
        result += dist(&nodes[i], &nodes[i + 1]);
    }
    result + dist(&nodes[0], &nodes[len - 1])
}

fn keys(p: &Population) -> Vec<u64> {
    (0..p.size()).map(|i| fitness(p.genome_at(i)).to_bits()).collect()
}

#[allow(non_snake_case)]
fn given_Population() -> Population {
    let _1 = Node::new(1, 1);
    let _2 = Node::new(1, 2);
    let _3 = Node::new(1, 3);
    let _4 = Node::new(1, 4);

    let parent_3 = Genome::new(vec![_1, _2, _3, _4]);
    let parent_2 = Genome::new(vec![_4, _1, _3, _1]);
    let parent_1 = Genome::new(vec![_1, _4, _2, _3]);

    let genoms: Vec<Genome> = vec![parent_1, parent_2, parent_3];
    Population::new(genoms, 1, 1, 1, 1, 2).unwrap()
}

#[allow(non_snake_case)]
fn given_Population_long() -> Population {
    let _1 = Node::new(1, 1);
    let _2 = Node::new(1, 2);
    let _3 = Node::new(1, 3);
    let _4 = Node::new(1, 4);
    let _5 = Node::new(1, 4);
    let _6 = Node::new(1, 4);
    let _7 = Node::new(1, 4);
    let _8 = Node::new(1, 4);
    let _9 = Node::new(1, 4);

    let parent_3 = Genome::new(vec![_1, _2, _3, _4, _6, _8, _7, _9, _5]);
    let parent_2 = Genome::new(vec![_4, _1, _3, _1, _7, _9, _6, _5, _8]);
    let parent_1 = Genome::new(vec![_1, _8, _2, _3, _9, _4, _6, _5, _7]);

    let genoms: Vec<Genome> = vec![parent_1, parent_2, parent_3];
    Population::new(genoms, 1, 1, 1, 1, 2).unwrap()
}

#[test]
fn new_generation() {
    let population = Population::new_random(15, 10, 0, 100, 3, 3, 3, 1, 2).unwrap();
    println!("generated population: {:?}", population);
    assert_eq!(population.size(), 15);
}

#[test]
fn new_validation_panic() {
    let _1 = Node::new(1, 1);
    let _2 = Node::new(1, 2);
    let _3 = Node::new(1, 3);
    let _4 = Node::new(1, 4);
    let _5 = Node::new(1, 5);
    let _6 = Node::new(1, 6);
    let _7 = Node::new(1, 7);
    let _8 = Node::new(1, 8);

    let parent_1 = Genome::new(vec![_3, _4, _8, _2, _7]);
    let parent_2 = Genome::new(vec![_4, _2, _5, _1, _6, _8, _3, _7]);

    let population: Vec<Genome> = vec![parent_1, parent_2];
    let result = Population::new(population, 1, 1, 1, 1, 2);
    assert_eq!(result.unwrap_err(), PopulationError::DifferentLengths);
}

#[test]
fn new_validation_no_panic() {
    let _1 = Node::new(1, 1);
    let _2 = Node::new(1, 2);
    let _3 = Node::new(1, 3);
    let _4 = Node::new(1, 4);
    let _5 = Node::new(1, 5);
    let _6 = Node::new(1, 6);
    let _7 = Node::new(1, 7);
    let _8 = Node::new(1, 8);

    let parent_1 = Genome::new(vec![_3, _4, _8, _2, _7, _1, _6, _5]);
    let parent_2 = Genome::new(vec![_4, _2, _5, _1, _6, _8, _3, _7]);

    let population: Vec<Genome> = vec![parent_1, parent_2];
    assert!(Population::new(population, 1, 1, 1, 1, 2).is_ok());
}

fn four_tours() -> Vec<Genome> {
    let p: Vec<Node> = (1..=4).map(|y| Node::new(1, y)).collect();
    vec![Genome::new(p.clone()), Genome::new(vec![p[1], p[0], p[2], p[3]])]
}

#[test]
fn new_rejects_each_broken_rule() {
    assert_eq!(Population::new(vec![], 0, 1, 0, 1, 2).unwrap_err(), PopulationError::EmptyPopulation);
    assert_eq!(Population::new(four_tours(), 1, 1, 1, 2, 2).unwrap_err(), PopulationError::CrossoverRange);
    assert_eq!(Population::new(four_tours(), 1, 1, 1, 1, 5).unwrap_err(), PopulationError::CrossoverRange);
    assert_eq!(Population::new(four_tours(), 2, 1, 1, 1, 2).unwrap_err(), PopulationError::TooManyCrossovers);
    assert_eq!(Population::new(four_tours(), 1, 1, 3, 1, 2).unwrap_err(), PopulationError::TooManyMutatedGenoms);
    assert!(Population::new(four_tours(), 1, 1, 1, 1, 4).is_ok());
    assert!(Population::new(four_tours(), 1, 1, 2, 0, 3).is_ok());
}

#[test]
fn new_random_rejects_settings() {
    assert_eq!(Population::new_random(0, 4, 0, 10, 0, 1, 0, 1, 2).unwrap_err(), PopulationError::EmptyPopulation);
    assert_eq!(Population::new_random(3, 4, 0, 10, 1, 1, 1, 3, 2).unwrap_err(), PopulationError::CrossoverRange);
    assert_eq!(Population::new_random(3, 4, 0, 10, 2, 1, 1, 1, 2).unwrap_err(), PopulationError::TooManyCrossovers);
    assert_eq!(Population::new_random(3, 4, 0, 10, 1, 1, 4, 1, 2).unwrap_err(), PopulationError::TooManyMutatedGenoms);
}

#[test]
fn new_random_single_tour_always_succeeds() {
    for _ in 0..20 {
        let population = Population::new_random(1, 2, 0, 10, 0, 1, 1, 0, 1).unwrap();
        assert_eq!(population.size(), 1);
        assert_eq!(population.get_len(), 1);
    }
}

#[test]
fn new_random_accepts_segment_ending_at_tour_length() {
    let mut population = Population::new_random(3, 4, 0, 10, 1, 1, 1, 1, 4).unwrap();
    assert_eq!(population.size(), 3);
    // No position 4 exists in a tour of four points: the pair breeds nothing.
    population.crossover_2ofsprings(&vec![(0, 1)]);
    assert_eq!(population.size(), 3);
    population.mutate();
    let k = keys(&population);
    population.reduce(&k);
    assert_eq!(population.size(), 3);
}

#[test]
fn new_random_rejects_segment_past_tour_length() {
    assert_eq!(Population::new_random(3, 4, 0, 10, 1, 1, 1, 1, 5).unwrap_err(), PopulationError::CrossoverRange);
}

#[test]
fn new_random_without_enough_orderings() {
    // Two points have only two orders, so a third distinct tour cannot be found.
    assert_eq!(Population::new_random(3, 2, 0, 10, 1, 1, 1, 0, 1).unwrap_err(), PopulationError::NoDistinctTour);
}

#[test]
fn new_random_tours_are_distinct_orderings() {
    let population = Population::new_random(6, 3, 0, 10, 1, 1, 1, 0, 1).unwrap();
    assert_eq!(population.size(), 6);
    let first = population.genome_at(0).get_nodes();
    let mut sorted_first = first.clone();
    sorted_first.sort_by_key(|n| (n.get_x(), n.get_y()));
    for i in 0..6 {
        let mut nodes = population.genome_at(i).get_nodes();
        nodes.sort_by_key(|n| (n.get_x(), n.get_y()));
        assert_eq!(nodes, sorted_first);
        for j in (i + 1)..6 {
            assert_ne!(population.genome_at(i), population.genome_at(j));
        }
    }
}

#[test]
fn test_crossover_2ofsprings() {
    let mut population = given_Population_long();
    let len_before = population.size();
    population.crossover_2ofsprings(&vec![(0, 1)]);

    assert_eq!(len_before < population.size(), true);
}

#[test]
fn crossover_phase_skips_equal_offspring() {
    let p: Vec<Node> = (1..=4).map(|y| Node::new(1, y)).collect();
    let tour = Genome::new(p.clone());
    let mut population = Population::new(vec![tour.clone(), tour.clone()], 1, 1, 1, 1, 2).unwrap();
    // Both offspring of a tour with itself are equal: [2, 3] filled from
    // 4, 1, 2, 3 gives [2, 1, 3, 4]. Only the first is added.
    population.crossover_2ofsprings(&vec![(0, 1)]);
    assert_eq!(population.size(), 3);
    assert_eq!(population.genome_at(2).get_nodes(), vec![p[1], p[0], p[2], p[3]]);
    // The same pair again gives nothing new.
    population.crossover_2ofsprings(&vec![(0, 1)]);
    assert_eq!(population.size(), 3);
}

#[test]
fn crossover_phase_adds_both_offspring() {
    let p: Vec<Node> = (1..=8).map(|y| Node::new(1, y)).collect();
    let a = Genome::new(vec![p[2], p[3], p[7], p[1], p[6], p[0], p[5], p[4]]);
    let b = Genome::new(vec![p[3], p[1], p[4], p[0], p[5], p[7], p[2], p[6]]);
    let mut population = Population::new(vec![a, b], 1, 1, 1, 3, 5).unwrap();
    population.crossover_2ofsprings(&vec![(0, 1)]);
    assert_eq!(population.size(), 4);
    assert_eq!(population.genome_at(2).get_nodes(), vec![p[4], p[5], p[7], p[1], p[6], p[0], p[2], p[3]]);
    assert_eq!(population.genome_at(3).get_nodes(), vec![p[3], p[1], p[6], p[0], p[5], p[7], p[4], p[2]]);
}

#[test]
fn reduce() {
    let mut population = given_Population();
    let len_before = population.size();
    population.crossover_2ofsprings(&vec![(0, 2)]);
    let k = keys(&population);
    population.reduce(&k);
    assert_eq!(len_before, population.size());
}

#[test]
fn reduce_keeps_best_in_order() {
    let mut population = given_Population();
    // Tour fitness values are 8, 10 and 6.
    let k = keys(&population);
    let tours: Vec<Genome> = (0..3).map(|i| population.genome_at(i).clone()).collect();
    population.crossover_2ofsprings(&vec![]);
    let mut bigger = Population::new(
        vec![tours[0].clone(), tours[1].clone(), tours[2].clone(), tours[1].clone()],
        1, 1, 1, 1, 2,
    )
    .unwrap();
    let mut bigger_keys = k.clone();
    bigger_keys.push(k[1]);
    bigger.reduce(&bigger_keys);
    assert_eq!(bigger.size(), 4);
    population.reduce(&k);
    assert_eq!(population.genome_at(0), &tours[2]);
    assert_eq!(population.genome_at(1), &tours[0]);
    assert_eq!(population.genome_at(2), &tours[1]);
}

#[test]
fn sorted_prefix_breaks_ties_by_position() {
    assert_eq!(sorted_prefix(&vec![5, 3, 5, 1, 3], 5), vec![3, 1, 4, 0, 2]);
    assert_eq!(sorted_prefix(&vec![5, 3, 5, 1, 3], 2), vec![3, 1]);
    assert_eq!(sorted_prefix(&vec![7, 7, 7], 0), Vec::<usize>::new());
}

#[test]
fn best_index_takes_first_minimum() {
    assert_eq!(best_index(&vec![4, 2, 9, 2]), 1);
    assert_eq!(best_index(&vec![1]), 0);
    assert_eq!(best_index(&vec![3, 3, 3]), 0);
}

#[test]
fn get_best_is_shortest_tour() {
    let population = given_Population();
    let best = population.get_best(&keys(&population));
    assert_eq!(fitness(&best), 6.0);
    assert_eq!(&best, population.genome_at(2));
}

#[test]
fn mutate_spares_first_tour_and_keeps_points() {
    let population_start = given_Population_long();
    for _ in 0..100 {
        let mut population = population_start.clone();
        population.mutate();
        assert_eq!(population.size(), 3);
        assert_eq!(population.genome_at(0), population_start.genome_at(0));
        for i in 0..3 {
            let mut before = population_start.genome_at(i).get_nodes();
            let mut after = population.genome_at(i).get_nodes();
            before.sort_by_key(|n| (n.get_x(), n.get_y()));
            after.sort_by_key(|n| (n.get_x(), n.get_y()));
            assert_eq!(before, after);
        }
    }
}

#[test]
fn repeated_rounds_keep_target_size() {
    let mut population = Population::new_random(10, 7, 0, 50, 3, 2, 4, 1, 4).unwrap();
    for round in 0..200usize {
        let n = population.size();
        let pairs: Vec<(usize, usize)> = (0..3).map(|c| ((round + 2 * c) % n, (round + 2 * c + 1) % n)).collect();
        population.crossover_2ofsprings(&pairs);
        assert!(population.size() >= 10);
        population.mutate();
        let k = keys(&population);
        population.reduce(&k);
        assert_eq!(population.size(), 10);
    }
}

#[test]
fn as_string() {
    let population = given_Population();
    assert_eq!(population.as_string(),"Population: \n===========================================================================================================================\nGenome: (1 , 1) | (1 , 4) | (1 , 2) | (1 , 3) | \nGenome: (1 , 4) | (1 , 1) | (1 , 3) | (1 , 1) | \nGenome: (1 , 1) | (1 , 2) | (1 , 3) | (1 , 4) | \n")
}

#[test]
fn parent_pool_takes_each_position_once() {
    let mut pool = ParentPool::new(5);
    assert_eq!(pool.len(), 5);
    assert_eq!(pool.take(1), 1);
    assert_eq!(pool.take(1), 2);
    assert_eq!(pool.take(2), 4);
    assert_eq!(pool.len(), 2);
    assert_eq!(pool.id_at(0), 0);
    assert_eq!(pool.id_at(1), 3);
}
