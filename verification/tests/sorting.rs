use extsort::merge::merge_partitions;
use extsort::merge::MergeQueue;
use extsort::sorter::Sorter;
use extsort::spill::make_partitions;
use extsort::spill::sort_values;
use extsort::spill::Batcher;
use extsort::text::format_u64;
use extsort::text::parse_u64;
use extsort::text::render_line;
use extsort::text::render_lines;
use extsort::order::sort_batch;

fn sorter_for(output: &str) -> Sorter {
    Sorter { input: String::from("in.txt"), output: String::from(output), batch: 4 }
}

#[test]
fn empty_input_sorts_to_empty() {
    let values: Vec<u64> = Vec::new();
    assert_eq!(sort_values(&values, 4), Vec::<u64>::new());
    assert_eq!(make_partitions(&values, 4).len(), 0);
}

#[test]
fn single_record() {
    let values = vec![42u64];
    assert_eq!(sort_values(&values, 4), vec![42u64]);
}

#[test]
fn duplicates_are_kept() {
    let values = vec![5u64, 3, 5, 1, 3, 5, 1, 1, 3];
    assert_eq!(sort_values(&values, 4), vec![1u64, 1, 1, 3, 3, 3, 5, 5, 5]);
}

#[test]
fn boundary_values_sort_to_the_ends() {
    let values = vec![7u64, u64::MAX, 0, 19];
    let out = sort_values(&values, 2);
    assert_eq!(out, vec![0u64, 7, 19, u64::MAX]);
    assert_eq!(out[0], 0);
    assert_eq!(out[out.len() - 1], u64::MAX);
}

#[test]
fn small_batches_force_many_partitions() {
    let values: Vec<u64> = (1..=100u64).rev().collect();
    let parts = make_partitions(&values, 10);
    assert_eq!(parts.len(), 10);
    let expected: Vec<u64> = (1..=100u64).collect();
    assert_eq!(sort_values(&values, 10), expected);
}

#[test]
fn output_is_sorted_and_a_permutation() {
    let values = vec![9u64, 2, 2, 81, 0, 44, 9, 13];
    let out = sort_values(&values, 3);
    assert_eq!(out.len(), values.len());
    for w in out.windows(2) {
        assert!(w[0] <= w[1]);
    }
    let mut expected = values.clone();
    expected.sort();
    assert_eq!(out, expected);
}

#[test]
fn batch_size_does_not_change_the_output() {
    let values = vec![10u64, 3, 77, 3, 0, 52, 52, 1, 998, 14];
    let reference = sort_values(&values, 1);
    for batch in 2..=12usize {
        assert_eq!(sort_values(&values, batch), reference);
    }
}

#[test]
fn partition_count_rounds_up() {
    let values = vec![1u64, 2, 3, 4, 5];
    assert_eq!(make_partitions(&values, 2).len(), 3);
    assert_eq!(make_partitions(&values, 5).len(), 1);
    assert_eq!(make_partitions(&values, 9).len(), 1);
    assert_eq!(make_partitions(&values, 1).len(), 5);
}

#[test]
fn partitions_are_sorted_and_bounded() {
    let values = vec![8u64, 6, 7, 5, 3, 0, 9];
    let parts = make_partitions(&values, 3);
    assert_eq!(parts.len(), 3);
    for part in &parts {
        assert!(part.len() <= 3);
        for w in part.windows(2) {
            assert!(w[0] <= w[1]);
        }
    }
}

#[test]
fn merge_joins_sorted_runs() {
    let parts = vec![vec![1u64, 3, 5], vec![2u64, 2, 6], vec![4u64]];
    assert_eq!(merge_partitions(&parts), vec![1u64, 2, 2, 3, 4, 5, 6]);
}

#[test]
fn merge_of_nothing_is_empty() {
    let parts: Vec<Vec<u64>> = Vec::new();
    assert_eq!(merge_partitions(&parts), Vec::<u64>::new());
}

#[test]
fn merge_queue_pops_minimum_first() {
    let mut q = MergeQueue::new();
    assert!(q.pop_min().is_none());
    q.push(30, 0);
    q.push(10, 1);
    q.push(20, 2);
    let first = q.pop_min().unwrap();
    assert_eq!(first.value, 10);
    assert_eq!(first.stream, 1);
    let second = q.pop_min().unwrap();
    assert_eq!(second.value, 20);
    assert_eq!(second.stream, 2);
    assert_eq!(q.len(), 1);
}

#[test]
fn batcher_spills_full_sorted_batches() {
    let mut b = Batcher::new(3);
    assert!(b.push(9).is_none());
    assert!(b.push(1).is_none());
    let spilled = b.push(4).expect("third record fills the batch");
    assert_eq!(spilled, vec![1u64, 4, 9]);
    assert!(b.push(2).is_none());
    let rest = b.finish().expect("one record is left over");
    assert_eq!(rest, vec![2u64]);
    assert!(b.finish().is_none());
}

#[test]
fn sort_batch_orders_in_place() {
    let mut v = vec![3u64, 1, 2, 1];
    sort_batch(&mut v);
    assert_eq!(v, vec![1u64, 1, 2, 3]);
}

#[test]
fn parse_accepts_the_unsigned_grammar() {
    assert_eq!(parse_u64("42"), Some(42));
    assert_eq!(parse_u64("+42"), Some(42));
    assert_eq!(parse_u64("0"), Some(0));
    assert_eq!(parse_u64("007"), Some(7));
    assert_eq!(parse_u64("18446744073709551615"), Some(u64::MAX));
}

#[test]
fn parse_rejects_everything_else() {
    assert_eq!(parse_u64(""), None);
    assert_eq!(parse_u64("+"), None);
    assert_eq!(parse_u64("-1"), None);
    assert_eq!(parse_u64(" 42"), None);
    assert_eq!(parse_u64("42 "), None);
    assert_eq!(parse_u64("4a2"), None);
    assert_eq!(parse_u64("++4"), None);
    assert_eq!(parse_u64("18446744073709551616"), None);
    assert_eq!(parse_u64("99999999999999999999999"), None);
}

#[test]
fn format_renders_decimal() {
    assert_eq!(format_u64(0), "0");
    assert_eq!(format_u64(7), "7");
    assert_eq!(format_u64(1337), "1337");
    assert_eq!(format_u64(u64::MAX), "18446744073709551615");
}

#[test]
fn format_then_parse_round_trips() {
    for n in [0u64, 1, 9, 10, 42, 999999999, u64::MAX] {
        assert_eq!(parse_u64(&format_u64(n)), Some(n));
    }
}

#[test]
fn lines_render_newline_terminated() {
    assert_eq!(render_lines(&vec![1u64, 22, 333]), "1\n22\n333\n");
    assert_eq!(render_lines(&Vec::new()), "");
    assert_eq!(render_line(42), "42\n");
}

#[test]
fn temp_file_path_sits_beside_the_output() {
    let s = sorter_for("/tmp/data/out.txt");
    assert_eq!(s.get_temp_file_path(0), "/tmp/data/sort_temp_file_0.txt");
    assert_eq!(s.get_temp_file_path(17), "/tmp/data/sort_temp_file_17.txt");
}

#[test]
fn temp_file_path_falls_back_to_the_current_directory() {
    assert_eq!(sorter_for("out.txt").get_temp_file_path(3), "sort_temp_file_3.txt");
    assert_eq!(sorter_for("").get_temp_file_path(0), "sort_temp_file_0.txt");
}

#[test]
fn partition_paths_cover_every_index_once() {
    let s = sorter_for("/work/out.txt");
    let paths = s.partition_paths(3);
    assert_eq!(
        paths,
        vec![
            String::from("/work/sort_temp_file_0.txt"),
            String::from("/work/sort_temp_file_1.txt"),
            String::from("/work/sort_temp_file_2.txt"),
        ]
    );
    // the spiller writes these paths and the merger deletes these paths:
    // after a run nothing of the naming scheme is left behind
    assert_eq!(s.partition_paths(3), paths);
    assert_eq!(s.partition_paths(0), Vec::<String>::new());
}
