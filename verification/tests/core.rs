use shepherd::coef::Coef;
use shepherd::coef::OMEGA;
use shepherd::downset::DownSet;
use shepherd::flow::Flow;
use shepherd::graph::Graph;
use shepherd::ideal::Ideal;
use shepherd::partitions::get_partitions;

fn c(v: u64) -> Coef {
    Coef::Value(v)
}

fn flow_from_lines(lines: &[&[Coef]]) -> Flow {
    let nb_rows = lines.len();
    let nb_cols = lines[0].len();
    let mut entries: Vec<Coef> = Vec::new();
    for line in lines {
        assert_eq!(line.len(), nb_cols);
        for x in *line {
            entries.push(*x);
        }
    }
    Flow::from_entries(nb_rows, nb_cols, entries)
}

#[test]
fn add() {
    assert_eq!(c(1).add(c(1)), c(2));
    assert_eq!(OMEGA.add(c(1)), OMEGA);
    assert_eq!(OMEGA.add(OMEGA), OMEGA);
}

#[test]
fn sum() {
    let vec = vec![c(1), c(1), c(1)];
    assert_eq!(Coef::sum(&vec), c(3));
    let vec = vec![c(1), OMEGA, c(1)];
    assert_eq!(Coef::sum(&vec), OMEGA);
}

#[test]
fn cmp() {
    assert!(c(1) < OMEGA);
    assert!(c(0) < c(1));
    assert!(c(0) < OMEGA);
    assert!(c(1) < OMEGA);
    assert!(c(1) < c(2));
}

#[test]
fn ideal_is_below() {
    let master_ideal = Ideal::from_vec(vec![OMEGA, OMEGA]);
    let medium_ideal = Ideal::from_vec(vec![c(7), c(7)]);
    let ini_ideal = Ideal::from_vec(vec![OMEGA, c(0)]);
    let final_ideal = Ideal::from_vec(vec![c(0), OMEGA]);

    assert!(master_ideal <= master_ideal);
    assert!(medium_ideal <= master_ideal);
    assert!(ini_ideal <= master_ideal);
    assert!(final_ideal <= master_ideal);

    assert!(!(master_ideal <= medium_ideal));
    assert!(medium_ideal <= medium_ideal);
    assert!(!(ini_ideal <= medium_ideal));
    assert!(!(final_ideal <= medium_ideal));

    assert!(!(master_ideal <= ini_ideal));
    assert!(!(medium_ideal <= ini_ideal));
    assert!(ini_ideal <= ini_ideal);
    assert!(!(final_ideal <= ini_ideal));

    assert!(!(master_ideal <= final_ideal));
    assert!(!(medium_ideal <= final_ideal));
    assert!(!(ini_ideal <= final_ideal));
    assert!(final_ideal <= final_ideal);
}

#[test]
fn ideal_min() {
    let ideal0 = Ideal::from_vec(vec![c(0), c(1), c(2), OMEGA]);
    let ideal1 = Ideal::from_vec(vec![OMEGA, c(2), c(1), c(0)]);
    let intersect = Ideal::from_vec(vec![c(0), c(1), c(1), c(0)]);
    assert_eq!(intersect, Ideal::intersection(&ideal0, &ideal1));
}

#[test]
fn ideal_from_non_zero_coefs() {
    let ideal = Ideal::from_non_zero_coefs(4, &vec![1, 2], &vec![1, 3]);
    assert_eq!(ideal, Ideal::from_vec(vec![c(0), c(1), c(0), c(2)]));
}

#[test]
fn get_partitions_rec_test() {
    let x = 3;
    let expected: Vec<Vec<u64>> = vec![
        vec![3, 0, 0],
        vec![2, 1, 0],
        vec![2, 0, 1],
        vec![1, 2, 0],
        vec![1, 1, 1],
        vec![1, 0, 2],
        vec![0, 3, 0],
        vec![0, 2, 1],
        vec![0, 1, 2],
        vec![0, 0, 3],
    ];
    assert_eq!(get_partitions(x, 3), expected);
}

#[test]
fn idempotent_test1() {
    let flow = flow_from_lines(&[
        &[OMEGA, OMEGA, c(0), c(0)],
        &[c(0), c(0), c(1), c(0)],
        &[c(0), c(0), c(0), OMEGA],
        &[c(0), c(0), c(0), c(0)],
    ]);
    let expected = flow_from_lines(&[
        &[OMEGA, OMEGA, c(1), c(1)],
        &[c(0), c(0), c(0), c(0)],
        &[c(0), c(0), c(0), c(0)],
        &[c(0), c(0), c(0), c(0)],
    ]);
    assert_eq!(flow.idempotent(), expected);
}

#[test]
fn idempotent_test2() {
    let flow = flow_from_lines(&[
        &[OMEGA, OMEGA, c(0), c(0)],
        &[c(0), c(0), c(1), c(0)],
        &[c(0), c(0), c(0), OMEGA],
        &[c(0), c(0), c(0), OMEGA],
    ]);
    let expected = flow_from_lines(&[
        &[OMEGA, OMEGA, c(1), c(1)],
        &[c(0), c(0), c(0), c(1)],
        &[c(0), c(0), c(0), OMEGA],
        &[c(0), c(0), c(0), OMEGA],
    ]);
    assert_eq!(flow.idempotent(), expected);
}

#[test]
fn iteration_test() {
    let flow = Flow::from_entries(2, 2, vec![OMEGA, c(1), c(0), OMEGA]);
    let expected = Flow::from_entries(2, 2, vec![OMEGA, OMEGA, c(0), OMEGA]);
    assert_eq!(flow.iteration(), expected);
}

#[test]
fn iteration_test2() {
    let flow = flow_from_lines(&[
        &[OMEGA, OMEGA, c(0), c(0)],
        &[c(0), c(0), c(1), c(0)],
        &[c(0), c(0), c(0), OMEGA],
        &[c(0), c(0), c(0), OMEGA],
    ]);
    let expected = flow_from_lines(&[
        &[OMEGA, OMEGA, c(1), OMEGA],
        &[c(0), c(0), c(0), c(1)],
        &[c(0), c(0), c(0), OMEGA],
        &[c(0), c(0), c(0), OMEGA],
    ]);
    assert_eq!(flow.iteration(), expected);
}

#[test]
fn iteration_test3() {
    let flow = flow_from_lines(&[
        &[OMEGA, OMEGA, c(0), c(0)],
        &[c(0), OMEGA, c(1), c(0)],
        &[c(0), c(0), c(0), OMEGA],
        &[c(0), c(0), c(0), OMEGA],
    ]);
    let expected = flow_from_lines(&[
        &[OMEGA, OMEGA, c(1), OMEGA],
        &[c(0), OMEGA, c(1), OMEGA],
        &[c(0), c(0), c(0), OMEGA],
        &[c(0), c(0), c(0), OMEGA],
    ]);
    assert_eq!(flow.iteration(), expected);
}

#[test]
fn iteration_test4() {
    let flow = flow_from_lines(&[
        &[OMEGA, OMEGA, c(0), c(0)],
        &[c(0), OMEGA, c(1), c(0)],
        &[c(0), c(0), OMEGA, OMEGA],
        &[c(0), c(0), c(0), OMEGA],
    ]);
    let expected = flow_from_lines(&[
        &[OMEGA, OMEGA, OMEGA, OMEGA],
        &[c(0), OMEGA, OMEGA, OMEGA],
        &[c(0), c(0), OMEGA, OMEGA],
        &[c(0), c(0), c(0), OMEGA],
    ]);
    assert_eq!(flow.iteration(), expected);
}

#[test]
fn pre_image() {
    let flow = flow_from_lines(&[
        &[OMEGA, OMEGA, c(0), c(0)],
        &[c(0), OMEGA, c(1), c(2)],
        &[c(0), c(0), OMEGA, OMEGA],
        &[c(0), c(0), c(0), OMEGA],
    ]);
    assert_eq!(
        flow.pre_image(&vec![0]),
        Ideal::from_vec(vec![OMEGA, c(0), c(0), c(0)])
    );
    assert_eq!(
        flow.pre_image(&vec![2, 3]),
        Ideal::from_vec(vec![c(0), c(3), OMEGA, OMEGA])
    );
    assert_eq!(
        flow.pre_image(&vec![1, 2]),
        Ideal::from_vec(vec![OMEGA, OMEGA, OMEGA, c(0)])
    );
}

#[test]
fn is_in_ideal() {
    let master_ideal = Ideal::from_vec(vec![OMEGA, OMEGA]);
    let medium_ideal = Ideal::from_vec(vec![c(1), c(1)]);
    let ini_ideal = Ideal::from_vec(vec![c(1), c(0)]);
    let final_ideal = Ideal::from_vec(vec![c(0), c(2)]);

    let downset = DownSet::from_vecs(vec![vec![c(1), c(0)], vec![c(0), c(2)]]);
    assert!(downset.contains(&ini_ideal));
    assert!(downset.contains(&final_ideal));
    assert!(!downset.contains(&master_ideal));
    assert!(!downset.contains(&medium_ideal));

    let downset2 = DownSet::from_vecs(vec![vec![c(1), c(1)]]);
    assert!(downset2.contains(&ini_ideal));
    assert!(!downset2.contains(&final_ideal));
    assert!(!downset2.contains(&master_ideal));
    assert!(downset2.contains(&medium_ideal));
}

#[test]
fn order() {
    let downset0 = DownSet::from_vecs(vec![
        vec![c(0), c(1), c(2), OMEGA],
        vec![OMEGA, c(2), c(1), c(0)],
    ]);
    let downset1 = DownSet::from_vecs(vec![
        vec![OMEGA, c(1), c(2), OMEGA],
        vec![OMEGA, c(2), c(1), OMEGA],
    ]);
    let downset2 = DownSet::from_vecs(vec![vec![OMEGA, c(2), c(2), OMEGA]]);

    assert!(downset0.is_contained_in(&downset1));
    assert!(downset1.is_contained_in(&downset2));
    assert!(downset0.is_contained_in(&downset2));
}

#[test]
fn restrict_to2() {
    let mut downset0 = DownSet::from_vecs(vec![
        vec![c(0), c(1), c(2), OMEGA],
        vec![OMEGA, c(2), c(1), c(0)],
    ]);
    let empty = DownSet::from_vecs(vec![]);

    assert!(empty.is_empty());
    let changed0 = downset0.restrict_to(&empty);
    assert!(changed0);
    assert!(downset0.is_empty());
}

#[test]
fn pre_image2() {
    let edges = Graph::from_vec(3, vec![(0, 1), (0, 2)]);
    let downset0 = DownSet::from_vecs(vec![
        vec![c(0), c(0), OMEGA],
        vec![c(0), OMEGA, c(0)],
    ]);
    let pre_image0 = downset0.safe_pre_image(&edges, 3);
    assert_eq!(pre_image0, DownSet::from_vecs(vec![vec![c(1), c(0), c(0)]]));
}

#[test]
fn is_safe() {
    let dim = 3;
    let edges = Graph::from_vec(dim, vec![(0, 1), (0, 2)]);
    let downset = DownSet::from_vecs(vec![
        vec![c(0), c(1), c(0)],
        vec![c(0), c(0), c(1)],
    ]);
    let candidate = Ideal::from_vec(vec![c(1), c(0), c(0)]);
    assert!(downset.is_safe_with_roundup(&candidate, &edges, dim as u64));
}

#[test]
fn minimize_keeps_the_closure() {
    let mut d = DownSet::from_vecs(vec![
        vec![c(1), c(1)],
        vec![c(0), c(1)],
        vec![c(2), c(0)],
    ]);
    let changed = d.minimize();
    assert!(changed);
    assert!(d.contains(&Ideal::from_vec(vec![c(0), c(1)])));
    assert!(d.contains(&Ideal::from_vec(vec![c(2), c(0)])));
    let changed_again = d.minimize();
    assert!(!changed_again);
}

#[test]
fn round_down_caps_members() {
    let mut d = DownSet::from_vecs(vec![vec![c(5), OMEGA], vec![c(1), c(1)]]);
    d.round_down(3, 2);
    assert!(d.contains(&Ideal::from_vec(vec![c(3), OMEGA])));
    assert!(!d.contains(&Ideal::from_vec(vec![c(4), c(0)])));
}

#[test]
fn restrict_to() {
    let mut downset0 = DownSet::from_vecs(vec![
        vec![c(0), c(1), c(2), OMEGA],
        vec![OMEGA, c(2), c(1), c(0)],
    ]);
    let mut downset1 = DownSet::from_vecs(vec![
        vec![OMEGA, c(1), c(2), OMEGA],
        vec![OMEGA, c(2), c(1), OMEGA],
    ]);
    let downset2 = DownSet::from_vecs(vec![
        vec![c(1), OMEGA, c(1), c(2)],
        vec![c(2), OMEGA, c(1), c(1)],
    ]);

    let downset0original = downset0.clone();
    let changed0 = downset0.restrict_to(&downset1);
    assert!(!changed0);
    assert_eq!(downset0, downset0original);

    let downset1original = downset1.clone();
    let changed1 = downset1.restrict_to(&downset2);
    assert!(changed1);
    assert!(downset1 != downset1original);
    assert_eq!(
        downset1,
        DownSet::from_vecs(vec![vec![c(2), c(2), c(1), c(1)], vec![c(1), c(2), c(1), c(2)]])
    );
    assert_eq!(
        downset1,
        DownSet::from_vecs(vec![
            vec![c(2), c(2), c(1), c(1)],
            vec![c(1), c(1), c(1), c(2)],
            vec![c(1), c(2), c(1), c(2)],
        ])
    );
    assert_eq!(
        downset1,
        DownSet::from_vecs(vec![
            vec![c(1), c(2), c(1), c(2)],
            vec![c(2), c(2), c(1), c(1)],
            vec![c(1), c(1), c(1), c(2)],
            vec![c(2), c(1), c(1), c(1)],
        ])
    );
}

#[test]
fn is_safe2() {
    let dim = 3;
    let edges = Graph::from_vec(dim, vec![(0, 1), (0, 2)]);
    let downset = DownSet::from_vecs(vec![
        vec![c(0), c(4), c(0)],
        vec![c(0), c(0), c(4)],
    ]);
    let candidate = Ideal::from_vec(vec![c(4), c(0), c(0)]);
    assert!(!downset.is_safe_with_roundup(&candidate, &edges, dim as u64));
}

#[test]
fn is_safe3() {
    let dim = 3;
    let edges = Graph::from_vec(dim, vec![(0, 1), (0, 2)]);
    let downset = DownSet::from_vecs(vec![
        vec![c(0), c(3), c(0)],
        vec![c(0), c(2), c(1)],
        vec![c(0), c(1), c(2)],
        vec![c(0), c(0), c(3)],
    ]);
    let candidate = Ideal::from_vec(vec![c(3), c(0), c(0)]);
    assert!(downset.is_safe_with_roundup(&candidate, &edges, dim as u64));
}

#[test]
fn is_not_safe() {
    let dim = 3;
    let edges = Graph::from_vec(3, vec![(0, 1), (0, 2)]);
    let downset = DownSet::from_vecs(vec![
        vec![c(0), c(3), c(0)],
        vec![c(0), c(0), c(3)],
    ]);
    let candidate = Ideal::from_vec(vec![c(4), c(0), c(0)]);
    assert!(!downset.is_safe_with_roundup(&candidate, &edges, dim as u64));
}

#[test]
fn pre_image1() {
    let dim = 4;
    let edges = Graph::from_vec(dim, vec![(0, 0), (1, 1), (1, 2), (2, 2), (2, 3), (3, 3)]);
    let downset0 = DownSet::from_vecs(vec![vec![c(0), c(1), c(2), OMEGA]]);

    let pre_image0 = downset0.safe_pre_image(&edges, dim as u64);
    assert_eq!(
        pre_image0,
        DownSet::from_vecs(vec![
            vec![c(0), c(1), c(1), OMEGA],
            vec![c(0), c(0), c(2), OMEGA],
        ]),
    );
}

#[test]
fn pre_image1bis() {
    let dim = 4;
    let edges = Graph::from_vec(dim, vec![(0, 0), (1, 1), (1, 2), (2, 2), (2, 3), (3, 3)]);
    let downset1 = DownSet::from_vecs(vec![
        vec![OMEGA, c(1), c(2), OMEGA],
        vec![OMEGA, c(2), c(1), OMEGA],
    ]);
    let pre_image1 = downset1.safe_pre_image(&edges, dim as u64);
    assert_eq!(
        pre_image1,
        DownSet::from_vecs(vec![
            vec![OMEGA, c(2), c(0), OMEGA],
            vec![OMEGA, c(0), c(2), OMEGA],
            vec![OMEGA, c(1), c(1), OMEGA],
        ])
    );
}

#[test]
fn pre_image3() {
    let dim = 4;
    let edges = Graph::from_vec(dim, vec![(2, 3)]);
    let downset0 = DownSet::from_vecs(vec![
        vec![c(0), c(0), c(0), OMEGA],
        vec![c(0), c(0), OMEGA, c(0)],
        vec![c(0), OMEGA, c(0), c(0)],
        vec![OMEGA, c(0), c(0), c(0)],
    ]);
    let pre_image0 = downset0.safe_pre_image(&edges, dim as u64);
    assert_eq!(
        pre_image0,
        DownSet::from_vecs(vec![vec![c(0), c(0), OMEGA, c(0)]])
    );
}

#[test]
fn pre_image4() {
    let dim = 6;
    let downset0 = DownSet::from_vecs(vec![
        vec![OMEGA, OMEGA, c(0), OMEGA, OMEGA, c(0)],
        vec![OMEGA, OMEGA, OMEGA, c(0), OMEGA, c(0)],
    ]);
    let edges = Graph::from_vec(
        dim,
        vec![
            (0, 0),
            (0, 1),
            (1, 0),
            (1, 1),
            (2, 4),
            (3, 5),
            (4, 4),
            (5, 5),
        ],
    );
    let pre_image0 = downset0.safe_pre_image(&edges, dim as u64);
    assert_eq!(
        pre_image0,
        DownSet::from_vecs(vec![vec![OMEGA, OMEGA, OMEGA, c(0), OMEGA, c(0)]])
    );
}

#[test]
fn pre_image5() {
    let dim = 6;
    let downset0 = DownSet::from_vecs(vec![
        vec![OMEGA, OMEGA, c(0), OMEGA, OMEGA, c(0)],
        vec![OMEGA, OMEGA, OMEGA, c(0), OMEGA, c(0)],
    ]);
    let edges = Graph::from_vec(
        6,
        vec![(0, 0), (1, 2), (1, 3), (3, 4), (2, 5), (4, 4), (5, 5)],
    );
    let pre_image0 = downset0.safe_pre_image(&edges, dim as u64);
    assert_eq!(
        pre_image0,
        DownSet::from_vecs(vec![vec![OMEGA, c(1), c(0), OMEGA, OMEGA, c(0)]])
    );
}

#[test]
fn is_safe6() {
    let dim = 5;
    let edges = Graph::from_vec(dim, vec![(0, 1), (0, 2), (0, 3)]);
    let downset = DownSet::from_vecs(vec![
        vec![c(0), OMEGA, OMEGA, c(0), OMEGA],
        vec![c(0), c(0), OMEGA, OMEGA, OMEGA],
        vec![c(0), OMEGA, c(0), OMEGA, OMEGA],
    ]);
    let candidate = Ideal::from_vec(vec![c(5), c(0), c(0), c(0), c(0)]);
    assert!(!downset.is_safe_with_roundup(&candidate, &edges, dim as u64));
}

#[test]
fn pre_image6() {
    let dim = 5;
    let downset0 = DownSet::from_vecs(vec![
        vec![c(0), c(0), c(0), OMEGA, c(0)],
        vec![c(0), c(0), OMEGA, c(0), OMEGA],
        vec![c(0), OMEGA, c(0), c(0), OMEGA],
        vec![c(0), OMEGA, OMEGA, c(0), c(0)],
        vec![OMEGA, c(0), c(0), c(0), c(0)],
    ]);
    let edges = Graph::from_vec(dim, vec![(0, 1), (0, 2), (0, 4)]);
    let pre_image0 = downset0.safe_pre_image(&edges, dim as u64);
    assert_eq!(
        pre_image0,
        DownSet::from_vecs(vec![vec![c(2), c(0), c(0), c(0), c(0)]])
    );
}

#[test]
fn test_flow_semigroup_compute1() {
    let dim = 2_usize;
    let flowa = flow_from_lines(&[&[OMEGA, c(1)], &[c(0), OMEGA]]);
    let flows = vec![flowa];
    let semigroup = shepherd::semigroup::FlowSemigroup::compute(&flows, dim as u64);
    let flow_omega = Flow::from_entries(dim, dim, vec![OMEGA, OMEGA, c(0), OMEGA]);
    assert!(semigroup.flows.iter().any(|f| *f == flow_omega));
}

#[test]
fn test_flow_semigroup_compute2() {
    let dim = 3;
    let flowa = flow_from_lines(&[
        &[OMEGA, OMEGA, c(0)],
        &[OMEGA, OMEGA, c(1)],
        &[c(0), c(0), OMEGA],
    ]);
    let flowb = flow_from_lines(&[
        &[OMEGA, c(0), c(0)],
        &[c(0), c(1), c(0)],
        &[c(0), c(0), OMEGA],
    ]);
    let flows = vec![flowa.clone(), flowb.clone()];
    let semigroup = shepherd::semigroup::FlowSemigroup::compute(&flows, dim);
    assert!(semigroup.contains(&flowa));
    assert!(semigroup.contains(&flowb));
}

#[test]
fn test_flow_semigroup_compute3() {
    let dim = 3;
    let flowa = flow_from_lines(&[
        &[OMEGA, c(1), c(0)],
        &[OMEGA, c(0), c(1)],
        &[c(0), c(0), OMEGA],
    ]);
    let flowb = flow_from_lines(&[
        &[OMEGA, c(0), c(0)],
        &[c(0), c(1), c(0)],
        &[c(0), c(0), OMEGA],
    ]);
    let flows = vec![flowa.clone(), flowb.clone()];
    let semigroup = shepherd::semigroup::FlowSemigroup::compute(&flows, dim);
    assert!(semigroup.contains(&flowa));
    assert!(semigroup.contains(&flowb));
}

#[test]
fn test_path_problem() {
    let flow = flow_from_lines(&[
        &[c(0), c(1), c(1)],
        &[c(0), c(0), c(0)],
        &[c(0), c(0), c(0)],
    ]);
    let flows = vec![flow];
    let semigroup = shepherd::semigroup::FlowSemigroup::compute(&flows, 3);
    let path_problem_solution = semigroup.get_path_problem_solution(&vec![1, 2]);
    let expected = Ideal::from_vec(vec![c(2), c(0), c(0)]);
    assert!(path_problem_solution.contains(&expected));
}

#[test]
fn test_path_problem2() {
    let dim = 5;
    let flow = flow_from_lines(&[
        &[c(0), c(1), c(1), c(0), c(0)],
        &[c(0), c(0), c(0), c(1), c(0)],
        &[c(0), c(0), c(0), c(1), c(0)],
        &[c(0), c(0), c(0), c(0), c(2)],
        &[c(0), c(0), c(0), c(0), c(0)],
    ]);
    let flows = vec![flow];
    let semigroup = shepherd::semigroup::FlowSemigroup::compute(&flows, dim);
    let path_problem_solution = semigroup.get_path_problem_solution(&vec![4]);
    let expected = Ideal::from_vec(vec![c(2), c(0), c(0), c(0), c(0)]);
    assert!(path_problem_solution.contains(&expected));
}

#[test]
fn get_transports_test1() {
    let dim = 2;
    let left = vec![c(1), c(0)];
    let right = vec![c(0), c(1)];
    let transports = shepherd::semigroup::get_transports(&left, &right, dim as u64);
    assert_eq!(transports.len(), 1);
    assert_eq!(transports[0], flow_from_lines(&[&[c(0), c(1)], &[c(0), c(0)]]));
}

#[test]
fn get_transports_test2() {
    let dim = 2;
    let left = vec![c(2), c(2)];
    let right = vec![c(4), c(4)];
    let transports = shepherd::semigroup::get_transports(&left, &right, dim as u64);
    let has = |m: Flow| transports.iter().any(|f| *f == m);
    assert!(has(flow_from_lines(&[&[c(2), c(0)], &[c(2), c(0)]])));
    assert!(has(flow_from_lines(&[&[c(0), c(2)], &[c(2), c(0)]])));
    assert!(has(flow_from_lines(&[&[c(2), c(0)], &[c(0), c(2)]])));
    assert!(has(flow_from_lines(&[&[c(0), c(2)], &[c(0), c(2)]])));
    assert!(has(flow_from_lines(&[&[c(1), c(1)], &[c(2), c(0)]])));
    assert!(has(flow_from_lines(&[&[c(1), c(1)], &[c(0), c(2)]])));
    assert!(has(flow_from_lines(&[&[c(2), c(0)], &[c(1), c(1)]])));
    assert!(has(flow_from_lines(&[&[c(0), c(2)], &[c(1), c(1)]])));
    assert!(has(flow_from_lines(&[&[c(1), c(1)], &[c(1), c(1)]])));
}

#[test]
fn get_products_test1() {
    let dim = 2;
    let left = flow_from_lines(&[&[c(1), c(0)], &[c(0), c(1)]]);
    let right = flow_from_lines(&[&[c(1), c(0)], &[c(0), c(1)]]);
    let products = shepherd::semigroup::get_products(&left, &right, dim as u64);
    assert_eq!(products.len(), 1);
    assert_eq!(products[0], flow_from_lines(&[&[c(1), c(0)], &[c(0), c(1)]]));
}

#[test]
fn get_products_test2() {
    let dim = 4;
    let left = flow_from_lines(&[
        &[c(2), c(2), c(0), c(0)],
        &[c(2), c(2), c(0), c(0)],
        &[c(0), c(0), c(0), c(0)],
        &[c(0), c(0), c(0), c(0)],
    ]);
    let right = left.clone();
    let products = shepherd::semigroup::get_products(&left, &right, dim as u64);
    let has = |m: Flow| products.iter().any(|f| *f == m);
    assert!(has(flow_from_lines(&[
        &[c(2), c(2), c(0), c(0)],
        &[c(2), c(2), c(0), c(0)],
        &[c(0), c(0), c(0), c(0)],
        &[c(0), c(0), c(0), c(0)],
    ])));
    assert!(has(flow_from_lines(&[
        &[c(4), c(0), c(0), c(0)],
        &[c(0), c(4), c(0), c(0)],
        &[c(0), c(0), c(0), c(0)],
        &[c(0), c(0), c(0), c(0)],
    ])));
}

#[test]
fn get_products_test3() {
    let dim = 5;
    let left = flow_from_lines(&[
        &[c(0), c(1), c(1), c(0), c(0)],
        &[c(0), c(0), c(0), c(1), c(0)],
        &[c(0), c(0), c(0), c(1), c(0)],
        &[c(0), c(0), c(0), c(0), c(2)],
        &[c(0), c(0), c(0), c(0), c(0)],
    ]);
    let right = left.clone();
    let products = shepherd::semigroup::get_products(&left, &right, dim as u64);
    assert!(products.iter().any(|f| *f == flow_from_lines(&[
        &[c(0), c(0), c(0), c(2), c(0)],
        &[c(0), c(0), c(0), c(0), c(1)],
        &[c(0), c(0), c(0), c(0), c(1)],
        &[c(0), c(0), c(0), c(0), c(0)],
        &[c(0), c(0), c(0), c(0), c(0)],
    ])));
}

#[test]
fn get_products_test4() {
    let dim = 5;
    let left = flow_from_lines(&[
        &[c(0), c(1), c(1), c(0), c(0)],
        &[c(0), c(0), c(0), c(1), c(0)],
        &[c(0), c(0), c(0), c(1), c(0)],
        &[c(0), c(0), c(0), c(0), c(2)],
        &[c(0), c(0), c(0), c(0), OMEGA],
    ]);
    let right = left.clone();
    let products = shepherd::semigroup::get_products(&left, &right, dim as u64);
    assert!(products.iter().any(|f| *f == flow_from_lines(&[
        &[c(0), c(0), c(0), c(2), c(0)],
        &[c(0), c(0), c(0), c(0), c(1)],
        &[c(0), c(0), c(0), c(0), c(1)],
        &[c(0), c(0), c(0), c(0), c(2)],
        &[c(0), c(0), c(0), c(0), OMEGA],
    ])));
}

#[test]
fn insert_covered_is_a_no_op() {
    let mut d = DownSet::from_vecs(vec![vec![c(2), c(2)]]);
    let covered = Ideal::from_vec(vec![c(1), c(1)]);
    let changed = d.insert(&covered);
    assert!(!changed);
    assert_eq!(d, DownSet::from_vecs(vec![vec![c(2), c(2)]]));
    let above = Ideal::from_vec(vec![c(3), c(0)]);
    let changed2 = d.insert(&above);
    assert!(changed2);
    assert!(d.contains(&above));
    assert!(d.contains(&covered));
}
