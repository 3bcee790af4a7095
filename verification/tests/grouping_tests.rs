use ygg::find_block_matches;
use ygg::find_block_matches_multi;
use ygg::group_and_filter_matches;
use ygg::hash_block;
use ygg::hash_line;
use ygg::BlockMatch;

fn files(entries: &[(&str, &str)]) -> Vec<(String, String)> {
    entries.iter().map(|(p, c)| (p.to_string(), c.to_string())).collect()
}

fn raw_match(ff: &str, fr: (usize, usize), tf: &str, tr: (usize, usize)) -> BlockMatch {
    BlockMatch {
        from_file: ff.to_string(),
        from_range: fr,
        to_file: tf.to_string(),
        to_range: tr,
    }
}

#[test]
fn block_hash_joins_lines_with_newlines() {
    assert_eq!(hash_block(&["a", "b"]), hash_line("a\nb"));
    assert_eq!(hash_block(&["abc"]), hash_line("abc"));
    assert_ne!(hash_block(&["a", "b"]), hash_block(&["ab"]));
    assert_ne!(hash_line("x"), hash_line("y"));
    assert_eq!(hash_line("same"), hash_line("same"));
}

#[test]
fn single_match_is_voted_a_move() {
    // end to end: one matched block, one group, voted a move
    let from = files(&[("a.txt", "x\ny\nz\nw\nq\n")]);
    let to = files(&[("b.txt", "x\ny\nz\nw\nq\n")]);
    let ms = find_block_matches(&from, &to, 5);
    assert_eq!(ms.len(), 1);
    assert_eq!(ms[0].from_range, (0, 5));
    let groups = group_and_filter_matches(ms, &from);
    assert_eq!(groups.len(), 1);
    assert_eq!(groups[0].from_file, "a.txt");
    assert_eq!(groups[0].to_file, "b.txt");
    assert_eq!(groups[0].blocks.len(), 1);
    assert!(!groups[0].blocks[0].is_addition);
}

#[test]
fn duplicate_content_voted_addition() {
    // the same block copied into two targets; the first processed match
    // is the move, the second the addition
    let from = files(&[("a.txt", "p\nq\nr\ns\n")]);
    let to = files(&[("b.txt", "p\nq\nr\ns\n"), ("c.txt", "p\nq\nr\ns\n")]);
    let ms = find_block_matches(&from, &to, 3);
    assert_eq!(ms.len(), 2);
    let groups = group_and_filter_matches(ms, &from);
    assert_eq!(groups.len(), 2);
    assert_eq!(groups[0].to_file, "b.txt");
    assert_eq!(groups[1].to_file, "c.txt");
    assert!(!groups[0].blocks[0].is_addition);
    assert!(groups[1].blocks[0].is_addition);
}

#[test]
fn three_identical_blocks_vote_one_move_two_additions() {
    // three files with byte-identical five-line blocks; the first match
    // keeps is_addition false, every later one with the same content true
    let block = "l1\nl2\nl3\nl4\nl5\n";
    let from = files(&[("a.txt", block), ("b.txt", block), ("c.txt", block)]);
    let to = files(&[("x.txt", block), ("y.txt", block), ("z.txt", block)]);
    let ms = find_block_matches(&from, &to, 5);
    assert_eq!(ms.len(), 3);
    let groups = group_and_filter_matches(ms, &from);
    let mut votes: Vec<bool> = Vec::new();
    for g in &groups {
        for b in &g.blocks {
            votes.push(b.is_addition);
        }
    }
    assert_eq!(votes.iter().filter(|v| !**v).count(), 1);
    assert_eq!(votes.iter().filter(|v| **v).count(), 2);
    // arrival order: the very first match is the move
    assert!(!groups[0].blocks[0].is_addition);
}

#[test]
fn groups_sorted_by_file_pair() {
    // groups come out sorted by (from_file, to_file) whatever the
    // arrival order of the matches
    let from = files(&[
        ("zz.txt", "1\n2\n3\n"),
        ("aa.txt", "4\n5\n6\n"),
    ]);
    let matches = vec![
        raw_match("zz.txt", (0, 1), "t2.txt", (0, 1)),
        raw_match("zz.txt", (1, 2), "t1.txt", (0, 1)),
        raw_match("aa.txt", (0, 1), "t9.txt", (0, 1)),
        raw_match("zz.txt", (2, 3), "t1.txt", (1, 2)),
    ];
    let groups = group_and_filter_matches(matches, &from);
    assert_eq!(groups.len(), 3);
    let keys: Vec<(String, String)> =
        groups.iter().map(|g| (g.from_file.clone(), g.to_file.clone())).collect();
    let mut sorted = keys.clone();
    sorted.sort();
    assert_eq!(keys, sorted);
    // blocks of one pair keep their arrival order
    let zz_t1 = groups.iter().find(|g| g.to_file == "t1.txt").unwrap();
    assert_eq!(zz_t1.blocks.len(), 2);
    assert_eq!(zz_t1.blocks[0].block.from_range, (1, 2));
    assert_eq!(zz_t1.blocks[1].block.from_range, (2, 3));
}

#[test]
fn match_for_unknown_file_votes_no_hash() {
    // a match naming an absent from-file is grouped but never voted an
    // addition, and casts no hash that could shadow later matches
    let from = files(&[("known.txt", "a\nb\nc\n")]);
    let matches = vec![
        raw_match("ghost.txt", (0, 2), "t.txt", (0, 2)),
        raw_match("known.txt", (0, 2), "t.txt", (0, 2)),
        raw_match("known.txt", (0, 2), "u.txt", (0, 2)),
    ];
    let groups = group_and_filter_matches(matches, &from);
    assert_eq!(groups.len(), 3);
    let ghost = groups.iter().find(|g| g.from_file == "ghost.txt").unwrap();
    assert!(!ghost.blocks[0].is_addition);
    let first_known = groups.iter().find(|g| g.to_file == "t.txt" && g.from_file == "known.txt").unwrap();
    assert!(!first_known.blocks[0].is_addition);
    let second_known = groups.iter().find(|g| g.to_file == "u.txt").unwrap();
    assert!(second_known.blocks[0].is_addition);
}

#[test]
fn multi_pass_recaptures_feed_voting() {
    // the three passes are independent: a block captured at threshold five
    // is re-captured at three and one, and the later copies are voted
    // additions because their content hash repeats
    let from = files(&[("a.txt", "x\ny\nz\nw\nq\n")]);
    let to = files(&[("b.txt", "x\ny\nz\nw\nq\n")]);
    let ms = find_block_matches_multi(&from, &to);
    assert_eq!(ms.len(), 3);
    let groups = group_and_filter_matches(ms, &from);
    assert_eq!(groups.len(), 1);
    let votes: Vec<bool> = groups[0].blocks.iter().map(|b| b.is_addition).collect();
    assert_eq!(votes, vec![false, true, true]);
}
