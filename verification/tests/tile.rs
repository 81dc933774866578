use rand::SeedableRng;
use rand::rngs::StdRng;
use wfc_core::rules::Rules;
use wfc_core::tile::EmptyDomainError;
use wfc_core::tile::NeighborView;
use wfc_core::tile::Refinement;
use wfc_core::tile::SuperTile;
use wfc_core::weighted::Weighted;

#[test]
fn count_test() {
    let items: Vec<u16> = vec![1, 1, 1, 2, 2, 3, 4];
    let (ids, weights) = Weighted::count(&items);
    let mut new_items = Vec::new();
    for (id, weight) in ids.into_iter().zip(weights.0) {
        for _ in 0..weight {
            new_items.push(id)
        }
    }
    assert_eq!(items, new_items);
}

#[test]
fn wbasetest() {
    let w = Weighted(vec![0, 1, 1, 0]);
    assert_eq!(2, w.sum());
    let mut rng = StdRng::seed_from_u64(7);
    let choice = w.pick_rand(&mut rng);
    println!("{:?}", choice);
    assert_ne!(choice, None);
    assert!(choice == Some(1) || choice == Some(2));
}

#[test]
fn weightingtest() {
    let w = Weighted(vec![1, 3]);
    let mut res = [0u32; 2];
    let mut rng = StdRng::seed_from_u64(20260110);
    for _i in 0..100000 {
        let choice = w.pick_rand(&mut rng);
        res[choice.expect("this does not work at all")] += 1;
    }
    assert!(res[1] > res[0] * 2);
    assert!(res[1] < res[0] * 4);
}

#[test]
fn pick_exact() {
    let w = Weighted(vec![2, 0, 3]);
    assert_eq!(w.pick(0), Some(0));
    assert_eq!(w.pick(1), Some(0));
    assert_eq!(w.pick(2), Some(0));
    assert_eq!(w.pick(3), Some(2));
    assert_eq!(w.pick(5), Some(2));
    assert_eq!(w.pick(6), None);
    assert_eq!(Weighted(vec![]).pick(1), None);
}

fn corner_rules() -> Rules {
    let patterns: Vec<([u16; 9], i32)> = vec![
        (
            [
                4, 2, 4,
                2, 1, 2,
                4, 2, 4,
            ],
            1,
        ),
        (
            [
                3, 4, 3,
                1, 2, 1,
                3, 4, 3,
            ],
            1,
        ),
        (
            [
                2, 1, 2,
                4, 3, 4,
                2, 1, 2,
            ],
            1,
        ),
        (
            [
                1, 2, 1,
                3, 4, 3,
                1, 2, 1,
            ],
            1,
        ),
    ];
    Rules::new(&patterns).unwrap()
}

#[test]
fn new_counts_centers() {
    let patterns: Vec<([u16; 9], i32)> = vec![
        ([1, 1, 1, 1, 2, 1, 1, 1, 1], 1),
        ([1, 1, 1, 1, 2, 1, 1, 1, 2], 1),
        ([3, 3, 3, 3, 3, 3, 3, 3, 3], 1),
    ];
    let rules = Rules::new(&patterns).unwrap();
    let cell = SuperTile::new(&rules);
    assert_eq!(cell.ids, vec![2u16, 3]);
    assert_eq!(cell.scores.0, vec![2, 1]);
}

#[test]
fn refine_narrows() {
    let rules = corner_rules();
    let mut cell = SuperTile::new(&rules);
    let full = cell.ids.len();
    assert_eq!(full, 4);
    // unconstrained neighbors change nothing
    let views = [NeighborView::ResolvedTile(0u16); 8];
    match cell.refine(&views, &rules) {
        Refinement::Unresolved(changed) => assert!(!changed),
        Refinement::Resolved(_) => panic!("a full corner cell must stay unresolved"),
    }
    assert!(cell.ids.len() <= full);
    assert_eq!(cell.ids.len(), 4);
    // a collapsed neighbor above narrows the cell to the one center that
    // expects tile 1 there
    let mut views2 = [NeighborView::ResolvedTile(0u16); 8];
    views2[1] = NeighborView::ResolvedTile(1u16);
    match cell.refine(&views2, &rules) {
        Refinement::Resolved(t) => assert_eq!(t, 3),
        Refinement::Unresolved(_) => panic!("one candidate must remain"),
    }
    assert_eq!(cell.ids.len(), 0);
}

#[test]
fn refine_contradiction_resolves_void() {
    let rules = corner_rules();
    let mut cell = SuperTile::new(&rules);
    // no center expects tile 9 above
    let mut views = [NeighborView::ResolvedTile(0u16); 8];
    views[1] = NeighborView::ResolvedTile(9u16);
    match cell.refine(&views, &rules) {
        Refinement::Resolved(t) => assert_eq!(t, 0),
        Refinement::Unresolved(_) => panic!("a contradiction must resolve to the void tile"),
    }
}

#[test]
fn collapse_empty_domain() {
    let cell = SuperTile { ids: vec![], scores: Weighted(vec![]) };
    let mut rng = StdRng::seed_from_u64(1);
    assert_eq!(cell.force_collapse(&mut rng), Err(EmptyDomainError));
}

#[test]
fn four_square() {
    let rules = corner_rules();
    let offsets: [(i32, i32); 8] = [
        (-1, -1),
        (0, -1),
        (1, -1),
        (1, 0),
        (1, 1),
        (0, 1),
        (-1, 1),
        (-1, 0),
    ];
    let mut cells: Vec<SuperTile> = Vec::new();
    for _ in 0..4 {
        cells.push(SuperTile::new(&rules));
    }
    let mut resolved: [Option<u16>; 4] = [None; 4];
    let mut rng = StdRng::seed_from_u64(99);
    for x in 0..2i32 {
        for y in 0..2i32 {
            let idx = (x * 2 + y) as usize;
            loop {
                let snapshot = cells.clone();
                let mut views: Vec<NeighborView> = Vec::new();
                for &(dx, dy) in offsets.iter() {
                    let nx = x + dx;
                    let ny = y + dy;
                    if nx < 0 || nx > 1 || ny < 0 || ny > 1 {
                        views.push(NeighborView::ResolvedTile(0));
                    } else {
                        let n = (nx * 2 + ny) as usize;
                        match resolved[n] {
                            Some(t) => views.push(NeighborView::ResolvedTile(t)),
                            None => views.push(NeighborView::Superimposed(&snapshot[n])),
                        }
                    }
                }
                let arr: [NeighborView; 8] = [
                    views[0], views[1], views[2], views[3], views[4], views[5], views[6], views[7],
                ];
                match cells[idx].refine(&arr, &rules) {
                    Refinement::Resolved(t) => {
                        resolved[idx] = Some(t);
                        break;
                    },
                    Refinement::Unresolved(changed) => {
                        if !changed {
                            let t = cells[idx].force_collapse(&mut rng).unwrap();
                            resolved[idx] = Some(t);
                            break;
                        }
                    },
                }
            }
        }
    }
    // read in the order (0,0), (1,0), (0,1), (1,1): cyclically adjacent pairs
    let result = [
        resolved[0].unwrap(),
        resolved[2].unwrap(),
        resolved[1].unwrap(),
        resolved[3].unwrap(),
    ];
    assert!(result[0] != result[1] && result[1] != result[2] && result[2] != result[3]);
}
