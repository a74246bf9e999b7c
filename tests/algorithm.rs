use fluent_data::algorithm::rebuild_neighborhood;
use rand::SeedableRng;
use rand_distr::{Distribution, Normal};
use fluent_data::graph::Vertex;
use fluent_data::{Algo, Model, Space};

const EXTRA_THRESHOLD: f64 = 25.;
const INTRA_THRESHOLD: f64 = 16.;
const MERGE_THRESHOLD: f64 = 1.;
const DECAY_FACTOR: f64 = 0.95;
const DECAY_THRESHOLD: f64 = 1E-2;

#[derive(Clone, Debug, PartialEq)]
struct Ball {
    center: Vec<f64>,
    radius: f64,
    weight: f64,
}

impl Ball {
    fn new(center: Vec<f64>, radius: f64, weight: f64) -> Self {
        Ball { center, radius, weight }
    }
}

fn euclid_dist(p1: &[f64], p2: &[f64]) -> f64 {
    p1.iter().zip(p2).map(|(x1, x2)| (x1 - x2) * (x1 - x2)).sum()
}

fn real_combine(p1: &[f64], w1: f64, p2: &[f64], w2: f64) -> Vec<f64> {
    let w = w1 + w2;
    p1.iter().zip(p2).map(|(x1, x2)| (x1 * w1 + x2 * w2) / w).collect()
}

fn key(d: f64) -> u64 {
    let bits = (d + 0.0).to_bits();
    if bits >> 63 == 1 {
        !bits
    } else {
        bits | (1 << 63)
    }
}

struct Euclid;

impl Space<Vec<f64>, Ball> for Euclid {
    fn init(&self, point: Vec<f64>) -> Ball {
        Ball::new(point, f64::INFINITY, 0.)
    }
    fn normalized_key(&self, point: &Vec<f64>, ball: &Ball) -> u64 {
        key(euclid_dist(point, &ball.center) / ball.radius)
    }
    fn ball_key(&self, from: &Ball, to: &Ball) -> u64 {
        key(euclid_dist(&from.center, &to.center) / to.radius)
    }
    fn center_key(&self, a: &Ball, b: &Ball) -> u64 {
        key(euclid_dist(&a.center, &b.center))
    }
    fn absorbs(&self, ball: &Ball, point: &Vec<f64>) -> bool {
        euclid_dist(&ball.center, point) < INTRA_THRESHOLD * ball.radius
    }
    fn absorb(&self, ball: &Ball, point: Vec<f64>) -> Ball {
        let d = euclid_dist(&ball.center, &point);
        let center = real_combine(&ball.center, ball.weight, &point, 1.);
        let radius = if ball.weight == 0. {
            d
        } else {
            (ball.radius * ball.weight + d) / (ball.weight + 1.)
        };
        Ball::new(center, radius, ball.weight + 1.)
    }
    fn split(&self, ball: &Ball, point: Vec<f64>) -> Ball {
        let d = euclid_dist(&ball.center, &point);
        Ball::new(real_combine(&ball.center, -1., &point, 5.), d / EXTRA_THRESHOLD, 1.)
    }
    fn overlaps(&self, a: &Ball, b: &Ball) -> bool {
        euclid_dist(&a.center, &b.center) < (a.radius + b.radius) * MERGE_THRESHOLD
    }
    fn merge(&self, a: &Ball, b: &Ball) -> Ball {
        let d = euclid_dist(&a.center, &b.center);
        Ball::new(
            real_combine(&a.center, a.weight, &b.center, b.weight),
            d + (a.radius * a.weight + b.radius * b.weight) / (a.weight + b.weight),
            a.weight + b.weight,
        )
    }
    fn decay(&self, ball: &Ball) -> Ball {
        Ball::new(ball.center.clone(), ball.radius, ball.weight * DECAY_FACTOR)
    }
    fn alive(&self, ball: &Ball) -> bool {
        ball.weight > DECAY_THRESHOLD
    }

    fn init_spec(&self, point: Vec<f64>) -> Ball {
        self.init(point)
    }

    fn normalized_key_spec(&self, point: Vec<f64>, ball: Ball) -> u64 {
        self.normalized_key(&point, &ball)
    }

    fn ball_key_spec(&self, from: Ball, to: Ball) -> u64 {
        self.ball_key(&from, &to)
    }

    fn center_key_spec(&self, a: Ball, b: Ball) -> u64 {
        self.center_key(&a, &b)
    }

    fn absorbs_spec(&self, ball: Ball, point: Vec<f64>) -> bool {
        self.absorbs(&ball, &point)
    }

    fn absorb_spec(&self, ball: Ball, point: Vec<f64>) -> Ball {
        self.absorb(&ball, point)
    }

    fn split_spec(&self, ball: Ball, point: Vec<f64>) -> Ball {
        self.split(&ball, point)
    }

    fn overlaps_spec(&self, a: Ball, b: Ball) -> bool {
        self.overlaps(&a, &b)
    }

    fn merge_spec(&self, a: Ball, b: Ball) -> Ball {
        self.merge(&a, &b)
    }

    fn decay_spec(&self, ball: Ball) -> Ball {
        self.decay(&ball)
    }

    fn alive_spec(&self, ball: Ball) -> bool {
        self.alive(&ball)
    }
}


fn approx(expected: f64, actual: f64) {
    assert!((expected - actual).abs() < 1e-9, "{} != {}", expected, actual);
}

fn build_sample() -> Vec<Vec<f64>> {
    vec![
        vec![5., -1.],
        vec![1., 1.],
        vec![15., -13.],
        vec![11., 23.],
        vec![31., -3.],
        vec![10., -9.],
        vec![6., -4.],
        vec![-2., -5.],
    ]
}

fn build_model(count: usize) -> (Vec<Vec<f64>>, Model<Ball>) {
    let dataset = build_sample();
    let algo = Algo::new(Euclid);
    let mut model = Model::new();
    for i in 0..count {
        algo.fit(&mut model, dataset[i].clone());
    }
    (dataset, model)
}

fn balls(model: &Model<Ball>) -> Vec<Ball> {
    model.iter_balls().into_iter().cloned().collect()
}

fn neighbor_centers(model: &Model<Ball>, i: usize) -> Vec<Vec<f64>> {
    model
        .vertex(i)
        .iter_neighbors(model.graph())
        .iter()
        .map(|v: &Vertex| model.ball(*v).center.clone())
        .collect()
}

#[test]
fn test_init() {
    let (dataset, model) = build_model(1);
    let balls = balls(&model);
    let first = &balls[0];
    assert_eq!(dataset[0], first.center);
    assert_eq!(f64::INFINITY, first.radius);
    assert_eq!(0., first.weight);
}

#[test]
fn test_update() {
    let (dataset, model) = build_model(2);
    let balls = balls(&model);
    let first = &balls[0];
    assert_eq!(dataset[1], first.center);
    assert_eq!(20., first.radius);
    assert_eq!(1., first.weight);
}

#[test]
fn test_new() {
    let (dataset, model) = build_model(3);
    let balls = balls(&model);
    let first = &balls[0];
    assert_eq!(dataset[1], first.center);
    assert_eq!(20., first.radius);
    approx(DECAY_FACTOR, first.weight);
    let second = &balls[1];
    assert_eq!(vec![18.5, -16.5], second.center);
    assert_eq!(15.68, second.radius);
    assert_eq!(1., second.weight);
}

#[test]
fn test_neighborhood_init() {
    let (_dataset, model) = build_model(3);
    let balls = balls(&model);
    let n1 = neighbor_centers(&model, 0);
    assert_eq!(vec![balls[1].center.clone()], n1);
    let n2 = neighbor_centers(&model, 1);
    assert_eq!(vec![balls[0].center.clone()], n2);
}

#[test]
fn test_neighborhood_refine_append() {
    let (_dataset, model) = build_model(4);
    let balls = balls(&model);
    let n1 = neighbor_centers(&model, 0);
    assert_eq!(balls[1].center, n1[0]);
    assert_eq!(balls[2].center, n1[1]); // appended during refinement
    let n2 = neighbor_centers(&model, 1);
    assert_eq!(vec![balls[0].center.clone()], n2); // not up to date for now
    let n3 = neighbor_centers(&model, 2);
    assert_eq!(balls[0].center, n3[0]);
    assert_eq!(balls[1].center, n3[1]);
}

#[test]
fn test_neighborhood_refine_prepend() {
    let (_dataset, model) = build_model(5);
    let balls = balls(&model);
    let n1 = neighbor_centers(&model, 0);
    assert_eq!(balls[1].center, n1[0]);
    assert_eq!(balls[2].center, n1[1]);
    let n2 = neighbor_centers(&model, 1);
    assert_eq!(balls[3].center, n2[0]); // prepended during refinement
    assert_eq!(balls[0].center, n2[1]);
    let n3 = neighbor_centers(&model, 2);
    assert_eq!(balls[0].center, n3[0]);
    assert_eq!(balls[1].center, n3[1]);
}

#[test]
fn test_merge() {
    let (_dataset, model) = build_model(8);
    let balls = balls(&model);
    assert_eq!(3, balls.len());
    let (first, second, third) = (&balls[0], &balls[1], &balls[2]);
    assert!(first.weight > 3.);
    assert!(second.weight < 1.);
    assert!(third.weight < 1.);
    assert!(first.center[0] < 10.);
    assert!(first.center[1] < 0.);
    assert!(second.center[0] > 10.);
    assert!(second.center[1] > 0.);
    assert!(third.center[0] > 10.);
    assert!(third.center[1] > 0.);
    let n1 = neighbor_centers(&model, 0);
    assert_eq!(vec![third.center.clone()], n1);
}

#[test]
fn fit_three_points_moves_the_first_ball() {
    let algo = Algo::new(Euclid);
    let mut model = Model::new();
    for p in [vec![5., -1.], vec![1., 1.], vec![11., -9.]] {
        algo.fit(&mut model, p);
    }
    let balls = balls(&model);
    assert_eq!(vec![6., -4.], balls[0].center);
    assert_eq!(110., balls[0].radius);
    assert!(balls[0].weight < 2.001 && balls[0].weight > 1.999);
}

#[test]
fn test_model_find_neighbors() {
    let data = vec![
        Ball::new(vec![1.], 4., 11.),
        Ball::new(vec![2.], 2., 1.),
        Ball::new(vec![6.], 1., 7.),
    ];
    let model = Model::load(&Euclid, data);
    let hood = model.predict(&Euclid, &vec![4.]);
    let (n1, n2) = (hood.0.unwrap(), hood.1.unwrap());
    assert_eq!(1, n1.coord());
    assert_eq!(key(2.), n1.dist());
    assert_eq!(0, n2.coord());
    assert_eq!(key(2.25), n2.dist());
    let nearest = model.get_neighborhood(&Euclid, &vec![4.]);
    assert_eq!(vec![model.vertex(1), model.vertex(0)], nearest);
}

#[test]
fn test_model_add_ball() {
    let mut model = Model::new();
    let n1 = Ball::new(vec![4.], f64::INFINITY, 0.);
    model.add_ball(n1.clone(), vec![]);
    let p2 = vec![3.];
    let neighborhood = model.get_neighborhood(&Euclid, &p2);
    let n2 = Ball::new(p2, 3., 1.);
    let refs = neighborhood.iter().map(|v| v.as_neighbor()).collect();
    model.add_ball(n2.clone(), refs);
    let balls = balls(&model);
    assert_eq!(n1, balls[0]);
    assert_eq!(n2, balls[1]);
    assert_eq!(vec![vec![4.]], neighbor_centers(&model, 1));
}

#[test]
fn test_load_model() {
    let data = vec![
        Ball::new(vec![4.], 3., 1.),
        Ball::new(vec![5.], 2., 2.),
        Ball::new(vec![3.], 3., 3.),
    ];
    let model = Model::load(&Euclid, data.clone());
    assert_eq!(data, balls(&model));
    let n1 = neighbor_centers(&model, 0);
    assert_eq!(vec![data[2].center.clone(), data[1].center.clone()], n1);
    let n2 = neighbor_centers(&model, 1);
    assert_eq!(vec![data[0].center.clone(), data[2].center.clone()], n2);
    let n3 = neighbor_centers(&model, 2);
    assert_eq!(vec![data[0].center.clone(), data[1].center.clone()], n3);
}

#[test]
fn test_predict() {
    let data = vec![
        Ball::new(vec![4.], 3., 1.),
        Ball::new(vec![5.], 2., 2.),
        Ball::new(vec![3.], 3., 3.),
    ];
    let model = Model::load(&Euclid, data);
    let hood = model.predict(&Euclid, &vec![6.]);
    let (n1, n2) = (hood.0.unwrap(), hood.1.unwrap());
    assert_eq!(1, n1.coord());
    assert_eq!(key(1. / 2.), n1.dist());
    assert_eq!(0, n2.coord());
    assert_eq!(key(4. / 3.), n2.dist());
}

#[test]
fn load_of_an_empty_list_and_of_one_ball() {
    let model: Model<Ball> = Model::load(&Euclid, vec![]);
    assert_eq!(0, model.len());
    let model = Model::load(&Euclid, vec![Ball::new(vec![1.], 2., 3.)]);
    assert_eq!(1, model.len());
    assert!(neighbor_centers(&model, 0).is_empty());
}

#[test]
fn load_after_fits_rebuilds_two_nearest_neighbors() {
    let (_dataset, model) = build_model(6);
    let saved = balls(&model);
    let loaded = Model::load(&Euclid, saved.clone());
    assert_eq!(saved, balls(&loaded));
    for i in 0..saved.len() {
        let mut others: Vec<usize> = (0..saved.len()).filter(|j| *j != i).collect();
        others.sort_by(|a, b| {
            let da = euclid_dist(&saved[i].center, &saved[*a].center) / saved[*a].radius;
            let db = euclid_dist(&saved[i].center, &saved[*b].center) / saved[*b].radius;
            da.partial_cmp(&db).unwrap()
        });
        let expected: Vec<Vec<f64>> =
            others.iter().take(2).map(|j| saved[*j].center.clone()).collect();
        assert_eq!(expected, neighbor_centers(&loaded, i));
    }
}

/// A small deterministic generator of points.
struct Lcg(u64);

impl Lcg {
    fn next(&mut self) -> f64 {
        self.0 = self.0.wrapping_mul(6364136223846793005).wrapping_add(1442695040888963407);
        ((self.0 >> 11) as f64) / ((1u64 << 53) as f64)
    }
}

#[test]
fn invariants_hold_after_every_fit() {
    let algo = Algo::new(Euclid);
    let mut model = Model::new();
    let mut rng = Lcg(7);
    for n in 1..=400usize {
        let cluster = (rng.next() * 4.).floor() * 50.;
        let point = vec![cluster + rng.next() * 6., cluster - rng.next() * 6.];
        algo.fit(&mut model, point);
        let balls = balls(&model);
        for (i, b) in balls.iter().enumerate() {
            if b.radius.is_infinite() {
                assert_eq!(1, balls.len());
                assert_eq!(0., b.weight);
            } else {
                assert!(b.weight > DECAY_THRESHOLD);
                assert!(b.radius > 0.);
            }
            let ns = model.vertex(i).iter_neighbors(model.graph());
            assert!(ns.len() <= 2);
            for (k, v) in ns.iter().enumerate() {
                assert!(v.index() < balls.len());
                assert_ne!(i, v.index());
                assert!(ns[k + 1..].iter().all(|w| w != v));
            }
        }
        let total: f64 = balls.iter().map(|b| b.weight).sum();
        assert!(total >= 0. && total <= n as f64);
    }
}

#[test]
fn fitting_a_ball_center_does_not_grow_the_model() {
    let (_dataset, mut model) = build_model(6);
    let algo = Algo::new(Euclid);
    for i in 0..model.len() {
        let before = balls(&model);
        if i >= before.len() || before[i].radius <= 0. {
            continue;
        }
        algo.fit(&mut model, before[i].center.clone());
        assert!(model.len() <= before.len());
    }
}

#[test]
fn first_fit_gives_the_sentinel_ball() {
    let algo = Algo::new(Euclid);
    let mut model = Model::new();
    algo.fit(&mut model, vec![2., 3.]);
    let balls = balls(&model);
    assert_eq!(1, balls.len());
    assert_eq!(Ball::new(vec![2., 3.], f64::INFINITY, 0.), balls[0]);
    assert!(neighbor_centers(&model, 0).is_empty());
}

#[test]
fn second_fit_replaces_the_sentinel() {
    let algo = Algo::new(Euclid);
    let mut model = Model::new();
    algo.fit(&mut model, vec![2., 3.]);
    algo.fit(&mut model, vec![-1., 7.]);
    let balls = balls(&model);
    assert_eq!(vec![Ball::new(vec![-1., 7.], 25., 1.)], balls);
}

#[test]
fn merge_sums_masses_and_inflates_radius() {
    let data = vec![Ball::new(vec![0.], 1., 2.), Ball::new(vec![1.5], 1.2, 1.)];
    let mut model = Model::load(&Euclid, data);
    let algo = Algo::new(Euclid);
    algo.fit(&mut model, vec![0.5]);
    let balls = balls(&model);
    // the point moved the first ball to 1/6 with radius 0.75 and mass 3,
    // close enough to the second one to absorb it
    assert_eq!(1, balls.len());
    let d12 = (1.5f64 - 1. / 6.) * (1.5 - 1. / 6.);
    approx(0.5, balls[0].center[0]);
    approx(d12 + (0.75 * 3. + 1.2 * 1.) / 4., balls[0].radius);
    approx(4., balls[0].weight);
}

#[test]
fn merge_of_well_separated_points() {
    let algo = Algo::new(Euclid);
    let mut model = Model::new();
    let points = [
        vec![0., 0.],
        vec![1., 0.],
        vec![60., 0.],
        vec![61., 0.],
        vec![60., 1.],
        vec![0., 1.],
        vec![1., 1.],
        vec![0.5, 0.5],
    ];
    for p in points.iter() {
        algo.fit(&mut model, p.clone());
    }
    let before = balls(&model);
    algo.fit(&mut model, vec![30., 0.5]);
    let after = balls(&model);
    assert!(after.len() <= before.len() + 1);
}

#[test]
fn decayed_ball_is_pruned() {
    let algo = Algo::new(Euclid);
    let mut model = Model::new();
    algo.fit(&mut model, vec![0., 0.]);
    algo.fit(&mut model, vec![1., 0.]);
    let mut mass = 1.;
    let mut steps = 0;
    loop {
        algo.fit(&mut model, vec![1000., 0.]);
        steps += 1;
        let balls = balls(&model);
        let first = balls.iter().find(|b| b.center == vec![1., 0.]);
        mass *= DECAY_FACTOR;
        if mass > DECAY_THRESHOLD {
            let first = first.unwrap();
            approx(mass, first.weight);
        } else {
            assert!(first.is_none());
            break;
        }
        assert!(steps < 200);
    }
    assert_eq!(90, steps);
}

#[test]
fn mass_of_a_ball_no_longer_primary_decreases() {
    let algo = Algo::new(Euclid);
    let mut model = Model::new();
    algo.fit(&mut model, vec![0., 0.]);
    algo.fit(&mut model, vec![1., 0.]);
    let mut last = f64::INFINITY;
    for _ in 0..40 {
        algo.fit(&mut model, vec![1000., 0.]);
        let balls = balls(&model);
        let first = balls.iter().find(|b| b.center == vec![1., 0.]).unwrap();
        assert!(first.weight < last);
        last = first.weight;
    }
}

#[test]
fn split_ball_is_placed_beyond_the_point() {
    let algo = Algo::new(Euclid);
    let mut model = Model::new();
    for p in [vec![5., -1.], vec![1., 1.], vec![15., -13.]] {
        algo.fit(&mut model, p);
    }
    let balls = balls(&model);
    assert_eq!(2, balls.len());
    assert_eq!(vec![18.5, -16.5], balls[1].center);
    assert_eq!(392. / 25., balls[1].radius);
    assert_eq!(1., balls[1].weight);
    assert_eq!(vec![balls[1].center.clone()], neighbor_centers(&model, 0));
    assert_eq!(vec![balls[0].center.clone()], neighbor_centers(&model, 1));
}

#[test]
fn refinement_appends_when_there_is_room() {
    assert_eq!(vec![7], rebuild_neighborhood(vec![], &vec![], 7, 1));
    assert_eq!(vec![3, 5], rebuild_neighborhood(vec![3], &vec![10], 5, 20));
}

#[test]
fn refinement_inserts_before_a_farther_neighbor() {
    assert_eq!(vec![5, 3, 4], rebuild_neighborhood(vec![3, 4], &vec![10, 30], 5, 5));
    assert_eq!(vec![3, 5, 4], rebuild_neighborhood(vec![3, 4], &vec![10, 30], 5, 20));
    assert_eq!(vec![5, 3], rebuild_neighborhood(vec![3], &vec![10], 5, 2));
}

#[test]
fn refinement_keeps_a_listed_or_farther_candidate_out() {
    assert_eq!(vec![5, 4], rebuild_neighborhood(vec![5, 4], &vec![10, 30], 5, 1));
    assert_eq!(vec![3, 5], rebuild_neighborhood(vec![3, 5], &vec![10, 30], 5, 20));
    assert_eq!(vec![3, 4], rebuild_neighborhood(vec![3, 4], &vec![10, 30], 5, 40));
    assert_eq!(vec![3, 4], rebuild_neighborhood(vec![3, 4], &vec![10, 30], 5, 30));
}

#[test]
fn streaming_normal_samples() {
    let normal = Normal::new(2.0, 3.0).unwrap();
    let mut rng = rand::rngs::StdRng::seed_from_u64(9787043385113690);
    let algo = Algo::new(Euclid);
    let mut model = Model::new();
    for _ in 0..10000 {
        algo.fit(&mut model, vec![normal.sample(&mut rng)]);
    }
    let balls = balls(&model);
    assert_eq!(1, balls.len());
    assert!((balls[0].center[0] - 2.).abs() < 5E-2);
    assert!((balls[0].radius - 9.).abs() < 1E-1);
    assert!(balls[0].weight > 9000. && balls[0].weight < 10000.);
}
