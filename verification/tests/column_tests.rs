use cluster_event::columns::{cluster_columns, events_from_columns, trigger_columns, triggers_from_columns};
use cluster_event::{Clust, Event, Trigger};

#[test]
fn events_zip_the_four_columns() {
    let xs = vec![1u16, 2, 3];
    let ys = vec![4u16, 5, 6];
    let toas = vec![10i64, 20, 30];
    let tots = vec![7u16, 8, 9];
    let events = events_from_columns(&xs, &ys, &toas, &tots);
    assert_eq!(events.len(), 3);
    assert_eq!(events[1], Event { x: 2, y: 5, time: 20, intens: 8 });
}

#[test]
fn events_stop_at_the_shortest_column() {
    let xs = vec![1u16, 2, 3];
    let ys = vec![4u16, 5];
    let toas = vec![10i64, 20, 30, 40];
    let tots = vec![7u16, 8, 9];
    let events = events_from_columns(&xs, &ys, &toas, &tots);
    assert_eq!(events.len(), 2);
    assert_eq!(events[0], Event { x: 1, y: 4, time: 10, intens: 7 });
}

#[test]
fn triggers_zip_and_stop_at_the_shorter_column() {
    let times = vec![5i64, 6];
    let types = vec![1u8];
    let triggers = triggers_from_columns(&times, &types);
    assert_eq!(triggers.len(), 1);
    assert_eq!(triggers[0], Trigger { time: 5, type_: 1 });
}

#[test]
fn cluster_columns_split_every_field() {
    let clusters = vec![
        Clust { x: 1, y: 2, time: 3, size: 4, sum: 5, intens: 6 },
        Clust { x: 7, y: 8, time: 9, size: 10, sum: 11, intens: 12 },
    ];
    let cols = cluster_columns(&clusters);
    assert_eq!(cols.x, vec![1, 7]);
    assert_eq!(cols.y, vec![2, 8]);
    assert_eq!(cols.time, vec![3, 9]);
    assert_eq!(cols.size, vec![4, 10]);
    assert_eq!(cols.sum, vec![5, 11]);
    assert_eq!(cols.intens, vec![6, 12]);
}

#[test]
fn trigger_columns_split_both_fields() {
    let triggers = vec![Trigger { time: -3, type_: 2 }, Trigger { time: 4, type_: 9 }];
    let (times, types) = trigger_columns(&triggers);
    assert_eq!(times, vec![-3, 4]);
    assert_eq!(types, vec![2, 9]);
}
