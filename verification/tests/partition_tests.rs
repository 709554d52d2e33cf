use snap_wallet::consolidate::{fresh_outputs, partition_outputs};
use snap_wallet::spent::SpentInputSet;
use snap_wallet::types::{InputRef, SpendableOutput};

fn output(tag: u8, index: usize, amount: u64) -> SpendableOutput {
    SpendableOutput { source: InputRef { tx_id: [tag; 32], output_index: index }, amount }
}

#[test]
fn fifty_outputs_at_cap_sixteen_make_four_groups() {
    // ceil(50 / 15) = 4 groups, each of at most 15 outputs.
    let outputs: Vec<SpendableOutput> = (0..50).map(|i| output(1, i, 10_000_000)).collect();
    let groups = partition_outputs(&outputs, 16);
    assert_eq!(groups.len(), 4);
    let sizes: Vec<usize> = groups.iter().map(|g| g.len()).collect();
    assert_eq!(sizes, vec![15, 15, 15, 5]);
    // The groups' union is the original list, in order, no duplicates.
    let rejoined: Vec<usize> = groups.iter().flatten().map(|o| o.source.output_index).collect();
    let expected: Vec<usize> = (0..50).collect();
    assert_eq!(rejoined, expected);
}

#[test]
fn exact_multiple_fills_every_group() {
    let outputs: Vec<SpendableOutput> = (0..30).map(|i| output(2, i, 1)).collect();
    let groups = partition_outputs(&outputs, 16);
    assert_eq!(groups.len(), 2);
    assert_eq!(groups[0].len(), 15);
    assert_eq!(groups[1].len(), 15);
}

#[test]
fn no_outputs_make_no_groups() {
    let outputs: Vec<SpendableOutput> = Vec::new();
    let groups = partition_outputs(&outputs, 16);
    assert_eq!(groups.len(), 0);
}

#[test]
fn smallest_cap_makes_single_output_groups() {
    let outputs: Vec<SpendableOutput> = (0..3).map(|i| output(3, i, 5)).collect();
    let groups = partition_outputs(&outputs, 2);
    assert_eq!(groups.len(), 3);
    for g in &groups {
        assert_eq!(g.len(), 1);
    }
}

#[test]
fn freshness_filter_drops_spent_and_repeated_outputs() {
    let mut spent = SpentInputSet::new();
    let committed = vec![InputRef { tx_id: [9; 32], output_index: 0 }];
    spent.record(&committed);
    let outputs = vec![
        output(9, 0, 10), // already spent
        output(4, 1, 20),
        output(4, 1, 20), // repeats the one before
        output(5, 2, 30),
    ];
    let kept = fresh_outputs(&outputs, &spent);
    assert_eq!(kept.len(), 2);
    assert_eq!(kept[0].source.tx_id, [4; 32]);
    assert_eq!(kept[0].source.output_index, 1);
    assert_eq!(kept[1].source.tx_id, [5; 32]);
    assert_eq!(kept[1].source.output_index, 2);
}
