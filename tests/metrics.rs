use zisk_witness::fcall::secp256k1_fp_inv_result;
use zisk_witness::metrics::{
    close_data_bus_collectors, counters_are_uniform, group_by_device, group_counters, order_by_chunk, split_main,
};
use zisk_witness::plan::ChunkId;

#[test]
fn main_counter_is_split_off() {
    let (main, rest) = split_main(vec![Some(1), None, Some(3)], Some(1));
    assert_eq!(main, Some(None));
    assert_eq!(rest, vec![Some(1), Some(3)]);
    let (main, rest) = split_main(vec![Some(1), Some(2)], None);
    assert_eq!(main, None);
    assert_eq!(rest, vec![Some(1), Some(2)]);
    let (main, rest) = split_main(vec![Some(1)], Some(4));
    assert_eq!(main, None);
    assert_eq!(rest, vec![Some(1)]);
}

#[test]
fn counters_are_regrouped_by_device() {
    let per_chunk = vec![vec![Some("a0"), Some("b0")], vec![None, Some("b1")]];
    let groups = group_by_device(per_chunk, 2);
    assert_eq!(
        groups,
        vec![
            vec![(ChunkId(0), Some("a0")), (ChunkId(1), None)],
            vec![(ChunkId(0), Some("b0")), (ChunkId(1), Some("b1"))],
        ]
    );
    let empty: Vec<Vec<Option<u8>>> = vec![];
    assert_eq!(group_by_device(empty, 3), vec![vec![], vec![], vec![]]);
}

#[test]
fn main_and_secondary_counters_per_chunk() {
    let per_chunk = vec![
        vec![Some(10), Some(11), Some(12)],
        vec![Some(20), None, Some(22)],
    ];
    let (main, secn) = group_counters(per_chunk, Some(0), 3);
    assert_eq!(main, vec![(ChunkId(0), Some(10)), (ChunkId(1), Some(20))]);
    assert_eq!(
        secn,
        vec![
            vec![(ChunkId(0), Some(11)), (ChunkId(1), None)],
            vec![(ChunkId(0), Some(12)), (ChunkId(1), Some(22))],
        ]
    );
    assert!(counters_are_uniform(&vec![vec![Some(1)], vec![None]], 1));
    assert!(!counters_are_uniform(&vec![vec![Some(1)], vec![]], 1));
    let empty: Vec<Vec<Option<u8>>> = vec![];
    assert!(!counters_are_uniform(&empty, 0));
    let (main, secn) = group_counters(vec![vec![Some(1)]], None, 1);
    assert!(main.is_empty());
    assert_eq!(secn, vec![vec![(ChunkId(0), Some(1))]]);
}

#[test]
fn task_results_are_put_in_chunk_order() {
    let items = vec![(ChunkId(2), 'c'), (ChunkId(0), 'a'), (ChunkId(1), 'b')];
    assert_eq!(
        order_by_chunk(items),
        Some(vec![(ChunkId(0), 'a'), (ChunkId(1), 'b'), (ChunkId(2), 'c')])
    );
    assert_eq!(order_by_chunk(vec![(ChunkId(0), 'a'), (ChunkId(0), 'b')]), None);
    assert_eq!(order_by_chunk(vec![(ChunkId(1), 'a')]), None);
    let none: Vec<(ChunkId, char)> = vec![];
    assert_eq!(order_by_chunk(none), Some(vec![]));
}

#[test]
fn first_collector_of_each_present_bus() {
    let buses = vec![Some(vec![Some("c0"), Some("x")]), None, Some(vec![Some("c2")])];
    assert_eq!(close_data_bus_collectors(buses), Some(vec![(0, "c0"), (2, "c2")]));
    let buses = vec![Some(vec![None, Some("x")])];
    assert_eq!(close_data_bus_collectors(buses), None);
    let buses: Vec<Option<Vec<Option<u8>>>> = vec![Some(vec![])];
    assert_eq!(close_data_bus_collectors(buses), None);
}

#[test]
fn field_inversion_status() {
    assert_eq!(secp256k1_fp_inv_result(0), 4);
    assert_eq!(secp256k1_fp_inv_result(-3), -3);
    assert_eq!(secp256k1_fp_inv_result(1), 1);
}
