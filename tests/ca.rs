use nannou_utils::ca::{left_neighbor, right_neighbor, Ca, CaError};

const RULE_90: [i32; 8] = [0, 1, 0, 1, 1, 0, 1, 0];

fn rule_30() -> Vec<i32> {
    vec![0, 1, 1, 1, 1, 0, 0, 0]
}

fn engine(rule: &[i32], width: u32, height: u32, cell_size: u32) -> Ca {
    match Ca::new(rule.to_vec(), width, height, cell_size) {
        Ok(ca) => ca,
        Err(e) => panic!("engine refused: {:?}", e),
    }
}

fn row(ca: &Ca, r: usize) -> Vec<i32> {
    (0..ca.columns()).map(|c| ca.state_at(c, r)).collect()
}

fn grid(ca: &Ca) -> Vec<Vec<i32>> {
    (0..ca.rows()).map(|r| row(ca, r)).collect()
}

#[test]
fn rules_follow_the_table_for_every_neighbourhood() {
    let table = vec![1, 0, 0, 1, 0, 1, 1, 0];
    let ca = engine(&table, 10, 10, 1);
    for a in 0..2 {
        for b in 0..2 {
            for c in 0..2 {
                let index = (4 * a + 2 * b + c) as usize;
                assert_eq!(ca.rules(a, b, c), table[index]);
            }
        }
    }
    assert_eq!(ca.rules(0, 0, 0), table[0]);
    assert_eq!(ca.rules(1, 1, 1), table[7]);
    assert_eq!(ca.rules(0, 0, 1), table[1]);
}

#[test]
fn rules_give_zero_for_a_non_binary_neighbourhood() {
    let ca = engine(&[1, 1, 1, 1, 1, 1, 1, 1], 10, 10, 1);
    assert_eq!(ca.rules(2, 0, 0), 0);
    assert_eq!(ca.rules(0, -1, 0), 0);
    assert_eq!(ca.rules(0, 0, 7), 0);
}

#[test]
fn new_computes_the_dimensions_and_seeds_the_grid() {
    let ca = engine(&RULE_90, 41, 17, 4);
    assert_eq!(ca.columns(), 10);
    assert_eq!(ca.rows(), 4);
    assert_eq!(ca.cell_size(), 4);
    assert_eq!(ca.generation(), 0);
    for c in 0..10 {
        for r in 0..4 {
            let expected = if c == 5 && r == 0 { 1 } else { 0 };
            assert_eq!(ca.state_at(c, r), expected);
        }
    }
}

#[test]
fn new_rejects_a_rule_table_of_the_wrong_length() {
    assert_eq!(Ca::new(vec![0, 1, 0], 10, 10, 1).err(), Some(CaError::RuleTableLength));
    assert_eq!(Ca::new(vec![0; 9], 10, 10, 1).err(), Some(CaError::RuleTableLength));
    assert_eq!(Ca::new(vec![], 10, 10, 1).err(), Some(CaError::RuleTableLength));
}

#[test]
fn new_rejects_a_non_binary_rule() {
    assert_eq!(Ca::new(vec![0, 1, 0, 2, 1, 0, 1, 0], 10, 10, 1).err(), Some(CaError::RuleValue));
    assert_eq!(Ca::new(vec![0, 1, 0, 1, 1, 0, 1, -1], 10, 10, 1).err(), Some(CaError::RuleValue));
}

#[test]
fn new_rejects_a_zero_cell_size() {
    assert_eq!(Ca::new(RULE_90.to_vec(), 10, 10, 0).err(), Some(CaError::ZeroCellSize));
}

#[test]
fn new_rejects_a_region_smaller_than_a_cell() {
    assert_eq!(Ca::new(RULE_90.to_vec(), 3, 10, 4).err(), Some(CaError::EmptyGrid));
    assert_eq!(Ca::new(RULE_90.to_vec(), 10, 3, 4).err(), Some(CaError::EmptyGrid));
    assert_eq!(Ca::new(RULE_90.to_vec(), 0, 0, 1).err(), Some(CaError::EmptyGrid));
}

#[test]
fn restart_leaves_a_single_seed_cell() {
    let mut ca = engine(&rule_30(), 9, 3, 1);
    for _ in 0..7 {
        ca.generate();
    }
    assert_eq!(ca.generation(), 7);
    ca.restart();
    assert_eq!(ca.generation(), 0);
    let mut ones = 0;
    for c in 0..9 {
        for r in 0..3 {
            ones += ca.state_at(c, r);
        }
    }
    assert_eq!(ones, 1);
    assert_eq!(ca.state_at(4, 0), 1);
}

#[test]
fn generate_counts_one_generation_and_keeps_the_edge_columns() {
    let all_ones = [1, 1, 1, 1, 1, 1, 1, 1];
    let mut ca = engine(&all_ones, 6, 3, 1);
    let first_before: Vec<i32> = (0..3).map(|r| ca.state_at(0, r)).collect();
    let last_before: Vec<i32> = (0..3).map(|r| ca.state_at(5, r)).collect();
    ca.generate();
    assert_eq!(ca.generation(), 1);
    assert_eq!(row(&ca, 1), vec![0, 1, 1, 1, 1, 0]);
    assert_eq!((0..3).map(|r| ca.state_at(0, r)).collect::<Vec<i32>>(), first_before);
    assert_eq!((0..3).map(|r| ca.state_at(5, r)).collect::<Vec<i32>>(), last_before);
}

#[test]
fn neighbour_columns_wrap_round() {
    assert_eq!(left_neighbor(0, 7), 6);
    assert_eq!(right_neighbor(6, 7), 0);
    assert_eq!(left_neighbor(3, 7), 2);
    assert_eq!(right_neighbor(3, 7), 4);
    assert_eq!(left_neighbor(0, 1), 0);
    assert_eq!(right_neighbor(0, 1), 0);
}

#[test]
fn rows_are_reused_as_a_ring() {
    let mut ca = engine(&RULE_90, 5, 4, 1);
    for _ in 0..3 {
        ca.generate();
    }
    assert_eq!(row(&ca, 0), vec![0, 0, 1, 0, 0]);
    ca.generate();
    assert_eq!(ca.generation(), 4);
    assert_eq!(row(&ca, 0), vec![0, 0, 0, 0, 0]);
    assert_eq!(row(&ca, 1), vec![0, 1, 0, 1, 0]);
    ca.generate();
    assert_eq!(ca.generation(), 5);
    assert_eq!(row(&ca, 1), vec![0, 0, 0, 0, 0]);
}

#[test]
fn a_single_row_is_rewritten_from_itself() {
    let mut ca = engine(&RULE_90, 5, 1, 1);
    ca.generate();
    assert_eq!(row(&ca, 0), vec![0, 1, 0, 1, 0]);
    ca.generate();
    assert_eq!(row(&ca, 0), vec![0, 0, 0, 0, 0]);
}

#[test]
fn equal_engines_stay_equal() {
    let mut a = engine(&rule_30(), 90, 30, 3);
    let mut b = engine(&rule_30(), 90, 30, 3);
    for _ in 0..45 {
        a.generate();
        b.generate();
        assert_eq!(grid(&a), grid(&b));
    }
    assert_eq!(a.generation(), b.generation());
}

#[test]
fn rule_30_scenario() {
    let mut ca = engine(&rule_30(), 9, 3, 1);
    for _ in 0..4 {
        ca.generate();
    }
    assert_eq!(
        grid(&ca),
        vec![
            vec![0, 1, 1, 0, 1, 1, 1, 1, 0],
            vec![0, 1, 0, 0, 1, 0, 0, 0, 0],
            vec![0, 0, 1, 1, 0, 0, 1, 0, 0],
        ]
    );
}

#[test]
fn rule_90_scenario_on_five_by_four() {
    let mut ca = engine(&RULE_90, 5, 4, 1);
    assert_eq!(row(&ca, 0), vec![0, 0, 1, 0, 0]);
    ca.generate();
    assert_eq!(ca.rules(0, 0, 1), 1);
    assert_eq!(ca.rules(0, 1, 0), 0);
    assert_eq!(ca.rules(1, 0, 0), 1);
    assert_eq!(row(&ca, 1), vec![0, 1, 0, 1, 0]);
    assert_eq!(row(&ca, 0), vec![0, 0, 1, 0, 0]);
    assert_eq!(row(&ca, 2), vec![0, 0, 0, 0, 0]);
}

#[test]
fn finished_once_past_the_screen_height() {
    let mut ca = engine(&RULE_90, 5, 4, 1);
    for _ in 0..4 {
        ca.generate();
    }
    assert!(!ca.finished(4));
    ca.generate();
    assert!(ca.finished(4));
    assert!(!ca.finished(20));
}

#[test]
fn display_cells_put_the_newest_generation_on_top() {
    let mut ca = engine(&RULE_90, 5, 4, 1);
    assert_eq!(ca.display_cells(), vec![(2, 1)]);
    ca.generate();
    assert_eq!(ca.display_cells(), vec![(1, 1), (2, 2), (3, 1)]);
    ca.generate();
    assert_eq!(ca.display_cells(), vec![(1, 2), (2, 3), (3, 2)]);
    for _ in 0..2 {
        ca.generate();
    }
    assert_eq!(ca.generation(), 4);
    assert_eq!(ca.display_cells(), vec![(1, 4), (3, 4)]);
}

#[test]
fn set_rule_set_installs_the_given_table() {
    let mut ca = engine(&RULE_90, 5, 4, 1);
    ca.generate();
    let before = grid(&ca);
    let table = vec![1, 1, 0, 0, 1, 0, 1, 1];
    ca.set_rule_set(table.clone());
    for a in 0..2 {
        for b in 0..2 {
            for c in 0..2 {
                assert_eq!(ca.rules(a, b, c), table[(4 * a + 2 * b + c) as usize]);
            }
        }
    }
    assert_eq!(grid(&ca), before);
    assert_eq!(ca.generation(), 1);
}

#[test]
fn randomize_draws_binary_rules_and_keeps_the_grid() {
    let mut ca = engine(&RULE_90, 5, 4, 1);
    ca.generate();
    let before = grid(&ca);
    let mut seen = [false, false];
    for _ in 0..50 {
        ca.randomize();
        for a in 0..2 {
            for b in 0..2 {
                for c in 0..2 {
                    let v = ca.rules(a, b, c);
                    assert!(v == 0 || v == 1);
                    seen[v as usize] = true;
                }
            }
        }
    }
    assert!(seen[0] && seen[1]);
    assert_eq!(grid(&ca), before);
    assert_eq!(ca.generation(), 1);
}

#[test]
fn narrow_grids_have_no_interior_column() {
    for width in 1..3 {
        let mut ca = engine(&[1, 1, 1, 1, 1, 1, 1, 1], width, 2, 1);
        let before = grid(&ca);
        ca.generate();
        assert_eq!(ca.generation(), 1);
        assert_eq!(grid(&ca), before);
    }
}

#[test]
fn largest_region_with_largest_cells_is_one_cell() {
    let mut ca = engine(&RULE_90, u32::MAX, u32::MAX, u32::MAX);
    assert_eq!((ca.columns(), ca.rows()), (1, 1));
    assert_eq!(ca.state_at(0, 0), 1);
    ca.generate();
    assert_eq!(ca.state_at(0, 0), 1);
    assert_eq!(ca.display_cells(), vec![(0, 1)]);
}
