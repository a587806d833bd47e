use krabmaga::coord::Coord;
use krabmaga::field::Field;
use krabmaga::grid::{DenseGrid, SparseGrid};

#[test]
fn dense_grid_moves_agent_between_cells() {
    let a: u64 = 7;
    let mut g = DenseGrid::new(10, 10);
    assert!(g.set_position(a, Coord::new(3, 4)));
    assert_eq!(g.position_of(a), None);
    assert_eq!(g.occupants_of(Coord::new(3, 4)), Vec::<u64>::new());
    g.commit();
    assert_eq!(g.position_of(a), Some(Coord::new(3, 4)));
    assert_eq!(g.occupants_of(Coord::new(3, 4)), vec![a]);

    assert!(g.set_position(a, Coord::new(7, 7)));
    assert_eq!(g.occupants_of(Coord::new(3, 4)), vec![a]);
    assert_eq!(g.occupants_of(Coord::new(7, 7)), Vec::<u64>::new());
    g.commit();
    assert_eq!(g.occupants_of(Coord::new(3, 4)), Vec::<u64>::new());
    assert_eq!(g.occupants_of(Coord::new(7, 7)), vec![a]);
    assert_eq!(g.position_of(a), Some(Coord::new(7, 7)));
}

#[test]
fn dense_grid_refuses_cells_outside_its_area() {
    let mut g = DenseGrid::new(10, 10);
    assert!(!g.set_position(1, Coord::new(10, 0)));
    assert!(!g.set_position(1, Coord::new(0, 10)));
    assert!(!g.set_position(1, Coord::new(-1, 0)));
    assert!(!g.set_position(1, Coord::new(0, -1)));
    assert!(g.set_position(1, Coord::new(9, 9)));
    assert!(g.set_position(2, Coord::new(0, 0)));
    assert_eq!(g.staged_len(), 2);
    g.commit();
    assert_eq!(g.population(), 2);
    assert_eq!(g.occupants_of(Coord::new(9, 9)), vec![1]);
    assert_eq!(g.occupants_of(Coord::new(0, 0)), vec![2]);
    assert_eq!(g.occupants_of(Coord::new(10, 0)), Vec::<u64>::new());
    assert!(g.contains(Coord::new(9, 0)));
    assert!(!g.contains(Coord::new(10, 0)));
}

#[test]
fn dense_grid_keeps_rows_apart() {
    let mut g = DenseGrid::new(3, 2);
    let mut id: u64 = 0;
    for y in 0..2 {
        for x in 0..3 {
            assert!(g.set_position(id, Coord::new(x, y)));
            id += 1;
        }
    }
    g.commit();
    let mut id: u64 = 0;
    for y in 0..2 {
        for x in 0..3 {
            assert_eq!(g.occupants_of(Coord::new(x, y)), vec![id]);
            assert_eq!(g.position_of(id), Some(Coord::new(x, y)));
            id += 1;
        }
    }
}

#[test]
fn sparse_grid_round_trip() {
    let mut g = SparseGrid::new();
    let c1 = Coord::new(-5, 1_000_000);
    let c2 = Coord::new(i32::MAX, i32::MIN);
    assert!(g.set_position(1, c1));
    g.commit();
    assert!(g.set_position(1, c2));
    g.commit();
    assert_eq!(g.position_of(1), Some(c2));
    assert_eq!(g.occupants_of(c1), Vec::<u64>::new());
    assert_eq!(g.occupants_of(c2), vec![1]);
}

#[test]
fn sparse_grid_last_staged_move_wins() {
    let mut g = SparseGrid::new();
    let c0 = Coord::new(0, 0);
    let c1 = Coord::new(1, 1);
    let c2 = Coord::new(2, 2);
    assert!(g.set_position(1, c0));
    assert!(g.set_position(2, c0));
    g.commit();
    assert_eq!(g.occupants_of(c0), vec![1, 2]);
    assert!(g.set_position(1, c1));
    assert!(g.set_position(1, c2));
    assert!(g.set_position(2, c2));
    g.commit();
    assert_eq!(g.position_of(1), Some(c2));
    assert_eq!(g.position_of(2), Some(c2));
    assert_eq!(g.occupants_of(c0), Vec::<u64>::new());
    assert_eq!(g.occupants_of(c1), Vec::<u64>::new());
    assert_eq!(g.occupants_of(c2), vec![1, 2]);
}

#[test]
fn grid_cells_list_exactly_the_agents_placed_there() {
    let mut g = SparseGrid::new();
    let cells = [Coord::new(0, 0), Coord::new(0, 1), Coord::new(1, 0)];
    for round in 0..4u64 {
        for agent in 0..9u64 {
            let target = cells[((agent + round) % 3) as usize];
            assert!(g.set_position(agent, target));
        }
        g.commit();
        for c in cells {
            let listed = g.occupants_of(c);
            for agent in 0..9u64 {
                assert_eq!(listed.contains(&agent), g.position_of(agent) == Some(c));
            }
            let mut sorted = listed.clone();
            sorted.sort();
            sorted.dedup();
            assert_eq!(sorted.len(), listed.len());
        }
    }
}

#[test]
fn removed_agent_leaves_the_grid_at_commit() {
    let mut g = SparseGrid::new();
    let c = Coord::new(4, 4);
    assert!(g.set_position(1, c));
    assert!(g.set_position(2, c));
    g.commit();
    g.remove_agent(1);
    assert_eq!(g.position_of(1), Some(c));
    g.commit();
    assert_eq!(g.position_of(1), None);
    assert_eq!(g.occupants_of(c), vec![2]);
    assert_eq!(g.population(), 1);
}

#[test]
fn field_shows_values_after_commit_only() {
    let mut f: Field<String> = Field::new();
    let c = Coord::new(2, -3);
    f.set(c, String::from("grass"));
    assert_eq!(f.get(c), None);
    f.commit();
    assert_eq!(f.get(c), Some(&String::from("grass")));
    f.set(c, String::from("sand"));
    f.set(c, String::from("rock"));
    assert_eq!(f.get(c), Some(&String::from("grass")));
    f.commit();
    assert_eq!(f.get(c), Some(&String::from("rock")));
    assert_eq!(f.get(Coord::new(-3, 2)), None);
}
