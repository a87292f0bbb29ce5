use puzzle_solvers::day09::{
    checksum, defrag, find_empty, find_file, parse_disk, part1, part2, swap_blocks,
    whole_file_defrag,
};

#[test]
fn day09_test_part1() {
    let input = "2333133121414131402";
    let answer = part1(input);
    assert_eq!(answer, 1928);
}

#[test]
fn day09_test_part2() {
    let input = "2333133121414131402";
    let answer = part2(input);
    assert_eq!(answer, 2858);
}

fn show(disk: &[Option<usize>]) -> String {
    disk.iter().map(|block| block.map_or(".".to_string(), |id| id.to_string())).collect()
}

#[test]
fn disk_map_alternates_files_and_free_space() {
    assert_eq!(show(&parse_disk("12345")), "0..111....22222");
    assert_eq!(show(&parse_disk("2333133121414131402")), "00...111...2...333.44.5555.6666.777.888899");
    assert_eq!(show(&parse_disk("")), "");
    assert_eq!(show(&parse_disk("0102")), "...");
    assert_eq!(show(&parse_disk("1021")), "011.");
}

#[test]
fn block_packing_fills_gaps_from_the_right() {
    let mut disk = parse_disk("12345");
    defrag(&mut disk);
    assert_eq!(show(&disk), "022111222......");
    let mut disk = parse_disk("2333133121414131402");
    defrag(&mut disk);
    assert_eq!(show(&disk), "0099811188827773336446555566..............");
    let mut disk = vec![None, None];
    defrag(&mut disk);
    assert_eq!(show(&disk), "..");
    let mut disk = vec![None, Some(3)];
    defrag(&mut disk);
    assert_eq!(show(&disk), "3.");
}

#[test]
fn file_packing_moves_whole_files_once() {
    let mut disk = parse_disk("2333133121414131402");
    whole_file_defrag(&mut disk);
    assert_eq!(show(&disk), "00992111777.44.333....5555.6666.....8888..");
    let mut disk = parse_disk("12345");
    whole_file_defrag(&mut disk);
    assert_eq!(show(&disk), "0..111....22222");
}

#[test]
fn files_and_gaps_are_found() {
    let disk = parse_disk("2333133121414131402");
    assert_eq!(find_file(&disk, 9, 41), (40, 41));
    assert_eq!(find_file(&disk, 8, 41), (36, 39));
    assert_eq!(find_file(&disk, 8, 37), (36, 37));
    assert_eq!(find_file(&disk, 0, 41), (0, 1));
    assert_eq!(find_file(&disk, 9, 30), (0, 0));
    assert_eq!(find_file(&disk, 5, 0), (0, 0));
    assert_eq!(find_empty(&disk, 3, 40), Some((2, 4)));
    assert_eq!(find_empty(&disk, 1, 40), Some((2, 2)));
    assert_eq!(find_empty(&disk, 4, 40), None);
    assert_eq!(find_empty(&disk, 3, 2), None);
    assert_eq!(find_empty(&disk, 3, 3), Some((2, 4)));
    let open = vec![Some(1), None];
    assert_eq!(find_empty(&open, 5, 2), Some((1, 5)));
}

#[test]
fn checksum_weighs_each_block_by_its_place() {
    assert_eq!(checksum(&[]), 0);
    assert_eq!(checksum(&[Some(7)]), 0);
    assert_eq!(checksum(&[None, Some(7), None, Some(2)]), 7 + 6);
    let mut disk = vec![Some(1), None, Some(2)];
    swap_blocks(&mut disk, 1, 2);
    assert_eq!(disk, vec![Some(1), Some(2), None]);
    assert_eq!(checksum(&disk), 2);
}
