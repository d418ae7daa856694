use terrain_generator::lakes::generate_lakes;
use terrain_generator::lakes::LakeError;
use terrain_generator::mesh::Mesh;

fn mesh(adjacent: Vec<Vec<usize>>, border: Vec<bool>) -> Mesh {
    Mesh { adjacent, border }
}

#[test]
fn single_bowl() {
    // centre at 0.3 ringed by 0.5,0.5,0.5,0.5,0.5,0.4 (scaled by ten);
    // the outer cells touch the map border
    let heights: Vec<i64> = vec![3, 5, 5, 5, 5, 5, 4];
    let m = mesh(
        vec![vec![1, 2, 3, 4, 5, 6], vec![0], vec![0], vec![0], vec![0], vec![0], vec![0]],
        vec![false, true, true, true, true, true, true],
    );
    let (lakes, assoc) = generate_lakes(&heights, &m, 0).unwrap();
    assert_eq!(lakes.len(), 1);
    assert_eq!(lakes[0].water_level, 4);
    assert_eq!(lakes[0].area, 2);
    assert_eq!(lakes[0].highest_shore_point, 6);
    assert_eq!(lakes[0].inflow_flux, 0);
    assert_eq!(assoc, vec![Some(0), None, None, None, None, None, Some(0)]);
}

#[test]
fn two_bowls_merge() {
    // minima at 0.20 and 0.22 separated by a 0.30 saddle inside a 0.45 rim
    let heights: Vec<i64> = vec![200, 220, 300, 450, 450];
    let m = mesh(
        vec![vec![2, 3], vec![2, 4], vec![0, 1, 3, 4], vec![0, 2], vec![1, 2]],
        vec![false, false, false, true, true],
    );
    let (lakes, assoc) = generate_lakes(&heights, &m, 0).unwrap();
    // the second seed absorbed the first; exactly one lake is referenced
    assert_eq!(assoc, vec![Some(1), Some(1), Some(1), None, Some(1)]);
    assert_eq!(lakes[1].water_level, 450);
    assert!(lakes[1].area >= 3);
    assert_eq!(lakes[1].area, 4);
    assert_eq!(lakes[1].highest_shore_point, 4);
    // the dissolved record is a placeholder nothing points at
    assert_eq!(lakes[0].area, 0);
}

#[test]
fn generate_lakes_idempotent() {
    // bit-identical results on a repeated run over a mesh with merges and ties
    let heights: Vec<i64> = vec![2, 0, 2, 1, 2, 4, 2, 4, 2, 2, 1, 4, 4, 3, 1, 1];
    let adjacent = vec![
        vec![1, 2, 3, 4, 7],
        vec![0],
        vec![0, 6, 10],
        vec![0, 5],
        vec![0, 9, 15],
        vec![3],
        vec![2, 8, 12],
        vec![0],
        vec![6, 11, 14],
        vec![4],
        vec![2],
        vec![8, 13],
        vec![6],
        vec![11],
        vec![8],
        vec![4],
    ];
    let border = vec![
        false, false, false, false, true, false, false, true, false, false, false, false, true,
        false, false, false,
    ];
    let m = mesh(adjacent.clone(), border.clone());
    let first = generate_lakes(&heights, &m, -1).unwrap();
    let second = generate_lakes(&heights, &m, -1).unwrap();
    assert_eq!(first.0, second.0);
    assert_eq!(first.1, second.1);
}

#[test]
fn no_cell_at_or_below_sea_level_joins_a_lake() {
    // the bowl floor sits below sea level, so no lake is seeded there
    let heights: Vec<i64> = vec![-1, 5, 5, 4];
    let m = mesh(
        vec![vec![1, 2, 3], vec![0], vec![0], vec![0]],
        vec![false, true, true, true],
    );
    let (lakes, assoc) = generate_lakes(&heights, &m, 0).unwrap();
    assert_eq!(lakes.len(), 0);
    assert_eq!(assoc, vec![None, None, None, None]);
}

#[test]
fn slope_floods_to_the_border() {
    // the low end seeds a lake that climbs the slope and stops only when
    // it commits the border cell at the top
    let heights: Vec<i64> = vec![1, 2, 3, 4];
    let m = mesh(
        vec![vec![1], vec![0, 2], vec![1, 3], vec![2]],
        vec![true, false, false, true],
    );
    let (lakes, assoc) = generate_lakes(&heights, &m, 0).unwrap();
    assert_eq!(lakes.len(), 1);
    assert_eq!(assoc, vec![Some(0), Some(0), Some(0), Some(0)]);
    assert_eq!(lakes[0].water_level, 4);
    assert_eq!(lakes[0].area, 4);
    assert_eq!(lakes[0].highest_shore_point, 3);
}

#[test]
fn empty_mesh() {
    let heights: Vec<i64> = vec![];
    let m = mesh(vec![], vec![]);
    let (lakes, assoc) = generate_lakes(&heights, &m, 0).unwrap();
    assert_eq!(lakes.len(), 0);
    assert_eq!(assoc.len(), 0);
}

#[test]
fn depression_without_boundary_fails() {
    // two interior cells pointing only at each other: the shore queue runs
    // dry before any spill point or border is found
    let heights: Vec<i64> = vec![0, 1];
    let m = mesh(vec![vec![1], vec![0]], vec![false, false]);
    let r = generate_lakes(&heights, &m, -10);
    assert_eq!(r, Err(LakeError::ShoresExhausted));
}

#[test]
fn merge_can_carry_cells_above_the_final_water_level() {
    // with tied heights, a growing lake meets a finished lake through a
    // cell lower than that lake's level; the carried-over members then sit
    // above the merged lake's final level, while the spill cell itself
    // stays exactly at it
    let heights: Vec<i64> = vec![2, 0, 2, 1, 2, 4, 2, 4, 2, 2, 1, 4, 4, 3, 1, 1];
    let adjacent = vec![
        vec![1, 2, 3, 4, 7],
        vec![0],
        vec![0, 6, 10],
        vec![0, 5],
        vec![0, 9, 15],
        vec![3],
        vec![2, 8, 12],
        vec![0],
        vec![6, 11, 14],
        vec![4],
        vec![2],
        vec![8, 13],
        vec![6],
        vec![11],
        vec![8],
        vec![4],
    ];
    let border = vec![
        false, false, false, false, true, false, false, true, false, false, false, false, true,
        false, false, false,
    ];
    let m = mesh(adjacent, border);
    let (lakes, assoc) = generate_lakes(&heights, &m, -1).unwrap();
    assert_eq!(
        assoc,
        vec![
            Some(5),
            Some(5),
            Some(5),
            Some(5),
            Some(5),
            None,
            Some(5),
            None,
            Some(5),
            None,
            Some(5),
            Some(3),
            Some(5),
            Some(3),
            Some(5),
            Some(5),
        ]
    );
    assert_eq!(lakes[5].water_level, 2);
    assert_eq!(lakes[5].area, 11);
    assert_eq!(lakes[5].highest_shore_point, 4);
    assert_eq!(lakes[3].water_level, 4);
    assert_eq!(lakes[3].area, 2);
    assert_eq!(lakes[3].highest_shore_point, 11);
    // cell 12 was absorbed from a lake that had risen to level 4
    assert!(heights[12] > lakes[5].water_level);
    // the spill cell sits exactly at the water level
    assert_eq!(heights[4], lakes[5].water_level);
}
