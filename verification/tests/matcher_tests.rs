use ygg::extend_structural_block;
use ygg::find_block_matches;
use ygg::find_block_matches_multi;
use ygg::is_boundary;
use ygg::BlockMatch;

fn files(entries: &[(&str, &str)]) -> Vec<(String, String)> {
    entries.iter().map(|(p, c)| (p.to_string(), c.to_string())).collect()
}

#[test]
fn boundary_classifier_cases() {
    assert!(is_boundary(""));
    assert!(is_boundary("   "));
    assert!(is_boundary("\t"));
    assert!(is_boundary("class Foo:"));
    assert!(is_boundary("  class Foo:"));
    assert!(is_boundary("def f():"));
    assert!(is_boundary("    def f():"));
    assert!(is_boundary("@decorator"));
    assert!(is_boundary("  @property"));
    assert!(!is_boundary("x = 1"));
    assert!(!is_boundary("classless"));
    assert!(!is_boundary("defer"));
    assert!(!is_boundary("return 1"));
}

#[test]
fn extender_grows_both_directions() {
    let from = ["a", "b", "c"];
    let to = ["z", "a", "b", "c"];
    let r = extend_structural_block(&from, &to, 1, 2);
    assert_eq!(r, (0, 3, 1, 4));
}

#[test]
fn extender_stops_before_boundary() {
    // the blank line and the def lines must never sit inside a range
    let from = ["def f():", "  return 1", "", "def g():", "  return 1"];
    let to = from;
    for seed in 0..from.len() {
        let (f1, f2, t1, t2) = extend_structural_block(&from, &to, seed, seed);
        assert_eq!(f2 - f1, t2 - t1);
        for k in f1..f2 {
            assert!(!is_boundary(from[k]));
        }
        for k in t1..t2 {
            assert!(!is_boundary(to[k]));
        }
    }
}

#[test]
fn extender_boundary_seed_gives_empty_range() {
    let from = ["", ""];
    let to = ["", ""];
    let (f1, f2, _t1, _t2) = extend_structural_block(&from, &to, 0, 0);
    assert_eq!(f2 - f1, 0);
}

#[test]
fn matcher_ranges_equal_length_and_min_len() {
    let from = files(&[("a.txt", "one\ntwo\nthree\nfour\nfive\nsix\n")]);
    let to = files(&[("b.txt", "zero\none\ntwo\nthree\nfour\nfive\nsix\n")]);
    for min_len in [1usize, 3, 5] {
        let ms = find_block_matches(&from, &to, min_len);
        assert!(!ms.is_empty());
        for m in &ms {
            let flen = m.from_range.1 - m.from_range.0;
            let tlen = m.to_range.1 - m.to_range.0;
            assert_eq!(flen, tlen);
            assert!(flen >= min_len);
        }
    }
}

#[test]
fn multi_pass_is_deterministic() {
    // two runs on identical inputs give identical output lists
    let from = files(&[
        ("a.txt", "x\ny\nz\nw\nq\n"),
        ("m.txt", "def f():\n  a\n  b\n  c\n"),
    ]);
    let to = files(&[
        ("b.txt", "x\ny\nz\nw\nq\n"),
        ("n.txt", "def f():\n  a\n  b\n  c\nextra\n"),
    ]);
    let r1 = find_block_matches_multi(&from, &to);
    let r2 = find_block_matches_multi(&from, &to);
    assert_eq!(r1, r2);
}

#[test]
fn five_line_block_matched_whole() {
    // the five identical lines come out as one block at the highest pass
    let from = files(&[("a.txt", "x\ny\nz\nw\nq\n")]);
    let to = files(&[("b.txt", "x\ny\nz\nw\nq\n")]);
    let ms = find_block_matches(&from, &to, 5);
    assert_eq!(ms.len(), 1);
    let m = &ms[0];
    assert_eq!(m.from_file, "a.txt");
    assert_eq!(m.from_range, (0, 5));
    assert_eq!(m.to_file, "b.txt");
    assert_eq!(m.to_range, (0, 5));
}

#[test]
fn copies_in_two_targets_both_matched() {
    // one source block found in two target files gives two matches
    let from = files(&[("a.txt", "p\nq\nr\ns\n")]);
    let to = files(&[("b.txt", "p\nq\nr\ns\n"), ("c.txt", "p\nq\nr\ns\n")]);
    let ms = find_block_matches(&from, &to, 3);
    assert_eq!(ms.len(), 2);
    assert_eq!(ms[0].to_file, "b.txt");
    assert_eq!(ms[1].to_file, "c.txt");
    for m in &ms {
        assert_eq!(m.from_range, (0, 4));
        assert_eq!(m.to_range, (0, 4));
    }
}

#[test]
fn boundaries_cap_block_length() {
    // two identical functions separated by a blank line must not fuse
    // into one five-line block
    let text = "def f():\n  return 1\n\ndef g():\n  return 1\n";
    let from = files(&[("a.py", text)]);
    let to = files(&[("b.py", text)]);
    let ms = find_block_matches_multi(&from, &to);
    for m in &ms {
        assert!(m.from_range.1 - m.from_range.0 <= 1);
    }
    // the two seeds on "  return 1", then the blank-line seed whose
    // backward extension re-finds the first range
    let expected: Vec<BlockMatch> = vec![
        BlockMatch {
            from_file: "a.py".to_string(),
            from_range: (1, 2),
            to_file: "b.py".to_string(),
            to_range: (1, 2),
        },
        BlockMatch {
            from_file: "a.py".to_string(),
            from_range: (1, 2),
            to_file: "b.py".to_string(),
            to_range: (4, 5),
        },
        BlockMatch {
            from_file: "a.py".to_string(),
            from_range: (1, 2),
            to_file: "b.py".to_string(),
            to_range: (1, 2),
        },
    ];
    assert_eq!(ms, expected);
}

#[test]
fn empty_inputs_give_no_matches() {
    let none: Vec<(String, String)> = Vec::new();
    let some = files(&[("a.txt", "x\ny\n")]);
    assert!(find_block_matches_multi(&none, &some).is_empty());
    assert!(find_block_matches_multi(&some, &none).is_empty());
    let empty_content = files(&[("e.txt", "")]);
    assert!(find_block_matches_multi(&empty_content, &some).is_empty());
}
