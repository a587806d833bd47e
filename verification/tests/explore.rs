use krabmaga::explore::{build_configurations, gen_param};
use krabmaga::export::{csv_file_name, header, records, table, DataFrame};

#[test]
fn configurations_cycle_through_every_combination() {
    // Three inputs of sizes 2, 3 and 2: twelve configurations.
    let t = build_configurations(12, &vec![2, 3, 2]);
    assert_eq!(t.len(), 3);
    // Each value of the first input is repeated 6 times, and the row takes
    // 12 runs of 6.
    assert_eq!(t[0].len(), 72);
    assert_eq!(&t[0][..12], &[0, 0, 0, 0, 0, 0, 1, 1, 1, 1, 1, 1]);
    assert_eq!(t[1].len(), 24);
    assert_eq!(&t[1][..12], &[0, 0, 1, 1, 2, 2, 0, 0, 1, 1, 2, 2]);
    assert_eq!(t[2].len(), 12);
    assert_eq!(&t[2][..12], &[0, 1, 0, 1, 0, 1, 0, 1, 0, 1, 0, 1]);
    // The first twelve columns are the twelve combinations, each once.
    let mut seen: Vec<(usize, usize, usize)> = (0..12).map(|k| (t[0][k], t[1][k], t[2][k])).collect();
    seen.sort();
    seen.dedup();
    assert_eq!(seen.len(), 12);
}

#[test]
fn configurations_of_nothing_and_of_too_few() {
    assert_eq!(build_configurations(5, &Vec::new()), Vec::<Vec<usize>>::new());
    assert_eq!(build_configurations(0, &vec![3]), vec![Vec::<usize>::new()]);
    // Fewer configurations than values: nothing is repeated, so the row is empty.
    assert_eq!(build_configurations(2, &vec![3]), vec![Vec::<usize>::new()]);
    assert_eq!(build_configurations(3, &vec![1]), vec![vec![0; 9]]);
}

#[test]
fn parameters_are_drawn_from_the_range() {
    let values = gen_param(10, 1000, 300);
    assert_eq!(values.len(), 300);
    assert!(values.iter().all(|v| (10..1000).contains(v)));
    assert!(values.iter().any(|v| *v != values[0]));
    let swapped = gen_param(3, -3, 200);
    assert_eq!(swapped.len(), 200);
    assert!(swapped.iter().all(|v| (-3..3).contains(v)));
    assert!(swapped.iter().any(|v| *v != 3) && swapped.iter().any(|v| *v != -3));
    assert_eq!(gen_param(7, 7, 4), vec![7, 7, 7, 7]);
    assert_eq!(gen_param(0, 9, 0), Vec::<i64>::new());
    assert_eq!(gen_param(i64::MIN, i64::MIN, 1), vec![i64::MIN]);
    let wide = gen_param(i64::MIN, i64::MAX, 50);
    assert!(wide.iter().all(|v| *v < i64::MAX));
}

struct Row {
    seed: u32,
    result: u32,
}

impl DataFrame for Row {
    fn field_names() -> &'static [&'static str] {
        &["seed", "result"]
    }

    fn to_string(&self) -> Vec<String> {
        vec![self.seed.to_string(), self.result.to_string()]
    }
}

#[test]
fn table_has_header_and_rows_in_order() {
    assert_eq!(csv_file_name("results"), "results.csv");
    assert_eq!(csv_file_name(""), ".csv");
    assert_eq!(header(&["a", "b"]), vec![String::from("a"), String::from("b")]);
    assert_eq!(header(&[]), Vec::<String>::new());
    let rows = [Row { seed: 1, result: 10 }, Row { seed: 2, result: 20 }];
    let t = records(&rows);
    assert_eq!(
        t,
        vec![
            vec![String::from("seed"), String::from("result")],
            vec![String::from("1"), String::from("10")],
            vec![String::from("2"), String::from("20")],
        ]
    );
    assert_eq!(records::<Row>(&[]), vec![vec![String::from("seed"), String::from("result")]]);
    assert_eq!(
        table(&["x"], vec![vec![String::from("1")], vec![]]),
        vec![vec![String::from("x")], vec![String::from("1")], vec![]]
    );
}
