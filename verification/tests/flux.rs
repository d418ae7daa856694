use terrain_generator::flux::get_flux;
use terrain_generator::lakes::generate_lakes;
use terrain_generator::lakes::Lake;
use terrain_generator::mesh::Mesh;

#[test]
fn linear_ridge_routes_nothing() {
    // a 10-cell descending path: every cell has at most two neighbours,
    // so the degree gate blocks all routing
    let heights: Vec<i64> = vec![10, 9, 8, 7, 6, 5, 4, 3, 2, 1];
    let mut adjacent: Vec<Vec<usize>> = vec![vec![1]];
    for i in 1..9usize {
        adjacent.push(vec![i - 1, i + 1]);
    }
    adjacent.push(vec![8]);
    let mut lakes: Vec<Lake> = Vec::new();
    let assoc: Vec<Option<usize>> = vec![None; 10];
    let flux = get_flux(&heights, &adjacent, &mut lakes, &assoc);
    assert_eq!(flux, vec![0; 10]);
}

#[test]
fn flux_through_a_lake_outlet() {
    // a three-cell headwater feeds a bowl of area four; the outlet (cell 3)
    // passes the collected inflow plus the area to the cell below it
    let heights: Vec<i64> = vec![100, 90, 80, 50, 40, 40, 45, 30, 120, 110];
    let adjacent: Vec<Vec<usize>> = vec![
        vec![1, 8, 9],
        vec![0, 2, 8],
        vec![1, 3, 9],
        vec![2, 4, 7, 6],
        vec![3, 5, 6],
        vec![4, 6, 2],
        vec![3, 4, 5],
        vec![3],
        vec![0, 1],
        vec![0, 2],
    ];
    let mut lakes = vec![Lake {
        water_level: 50,
        area: 4,
        highest_shore_point: 3,
        inflow_flux: 0,
    }];
    let assoc: Vec<Option<usize>> = vec![
        None,
        None,
        None,
        Some(0),
        Some(0),
        Some(0),
        Some(0),
        None,
        None,
        None,
    ];
    let flux = get_flux(&heights, &adjacent, &mut lakes, &assoc);
    // three upstream unit contributions collect in the lake
    assert_eq!(lakes[0].inflow_flux, 3);
    // the outlet's downhill neighbour receives inflow plus area
    assert_eq!(flux[7], 7);
    assert_eq!(flux, vec![0, 1, 2, 0, 0, 0, 0, 7, 0, 0]);
    // lake bookkeeping other than inflow is untouched
    assert_eq!(lakes[0].water_level, 50);
    assert_eq!(lakes[0].area, 4);
    assert_eq!(lakes[0].highest_shore_point, 3);
}

#[test]
fn interior_lake_cells_carry_no_flux() {
    // generate lakes first, then route: every lake member ends with zero
    let heights: Vec<i64> = vec![3, 5, 5, 5, 5, 5, 4];
    let adjacent: Vec<Vec<usize>> = vec![
        vec![1, 2, 3, 4, 5, 6],
        vec![0],
        vec![0],
        vec![0],
        vec![0],
        vec![0],
        vec![0],
    ];
    let m = Mesh {
        adjacent: adjacent.clone(),
        border: vec![false, true, true, true, true, true, true],
    };
    let (mut lakes, assoc) = generate_lakes(&heights, &m, 0).unwrap();
    let flux = get_flux(&heights, &adjacent, &mut lakes, &assoc);
    for i in 0..heights.len() {
        if assoc[i].is_some() {
            assert_eq!(flux[i], 0);
        }
    }
}

#[test]
fn empty_world_routes_nothing() {
    let heights: Vec<i64> = vec![];
    let adjacent: Vec<Vec<usize>> = vec![];
    let mut lakes: Vec<Lake> = Vec::new();
    let assoc: Vec<Option<usize>> = Vec::new();
    let flux = get_flux(&heights, &adjacent, &mut lakes, &assoc);
    assert_eq!(flux.len(), 0);
}

#[test]
fn routing_is_deterministic() {
    let heights: Vec<i64> = vec![7, 7, 5, 5, 3, 2, 1, 4, 6];
    let adjacent: Vec<Vec<usize>> = vec![
        vec![1, 2, 8],
        vec![0, 3, 8],
        vec![0, 3, 4],
        vec![1, 2, 4],
        vec![2, 3, 5, 7],
        vec![4, 6, 7],
        vec![5],
        vec![4, 5, 8],
        vec![0, 1, 7],
    ];
    let assoc: Vec<Option<usize>> = vec![None; 9];
    let mut lakes1: Vec<terrain_generator::lakes::Lake> = Vec::new();
    let mut lakes2: Vec<terrain_generator::lakes::Lake> = Vec::new();
    let f1 = get_flux(&heights, &adjacent, &mut lakes1, &assoc);
    let f2 = get_flux(&heights, &adjacent, &mut lakes2, &assoc);
    assert_eq!(f1, f2);
    // ties in height are broken towards the lower cell index, upstream
    // first, so the two equal-height sources both feed cell 4 before it
    // routes
    assert!(f1.iter().sum::<u64>() > 0);
}
