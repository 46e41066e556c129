use threeway_merge_rs::diff::diff;
use threeway_merge_rs::emit::{emit, Markers};
use threeway_merge_rs::intern::{classify, line_hash, LineTable};
use threeway_merge_rs::merge::merge_lines;
use threeway_merge_rs::plan::plan;
use threeway_merge_rs::region::{Region, RegionKind};
use threeway_merge_rs::script::{build_script, Hunk};
use threeway_merge_rs::simplify::{has_alnum, simplify};
use threeway_merge_rs::strings::{chars_of, string_of};
use threeway_merge_rs::text::{lines_equal, split_lines};
use threeway_merge_rs::{
    merge_strings, DiffAlgorithm, MergeFavor, MergeLevel, MergeOptions, MergeStyle,
};

fn lines(text: &str) -> Vec<Vec<char>> {
    split_lines(&chars_of(text))
}

fn hunk(base_start: usize, base_len: usize, other_start: usize, other_len: usize) -> Hunk {
    Hunk { base_start, base_len, other_start, other_len }
}

fn region(kind: RegionKind, base: (usize, usize), ours: (usize, usize), theirs: (usize, usize)) -> Region {
    Region {
        kind,
        base_start: base.0,
        base_len: base.1,
        ours_start: ours.0,
        ours_len: ours.1,
        theirs_start: theirs.0,
        theirs_len: theirs.1,
    }
}

fn no_labels() -> Markers {
    Markers { size: 7, ours: None, base: None, theirs: None }
}

fn all_algorithms() -> Vec<DiffAlgorithm> {
    vec![
        DiffAlgorithm::Myers,
        DiffAlgorithm::Minimal,
        DiffAlgorithm::Patience,
        DiffAlgorithm::Histogram,
    ]
}

#[test]
fn strings_and_characters_convert_both_ways() {
    assert_eq!(chars_of(""), Vec::<char>::new());
    assert_eq!(chars_of("aé\n"), vec!['a', 'é', '\n']);
    assert_eq!(string_of(&vec!['x', 'ß', '\n', 'y']), "xß\ny");
    assert_eq!(string_of(&chars_of("round trip ✓")), "round trip ✓");
}

#[test]
fn lines_keep_their_terminators() {
    assert_eq!(lines(""), Vec::<Vec<char>>::new());
    assert_eq!(lines("a"), vec![vec!['a']]);
    assert_eq!(lines("a\n"), vec![vec!['a', '\n']]);
    assert_eq!(lines("a\n\nb"), vec![vec!['a', '\n'], vec!['\n'], vec!['b']]);
    assert_eq!(lines("\n"), vec![vec!['\n']]);
    let text = "one\ntwo\r\nthree";
    let joined: Vec<char> = lines(text).concat();
    assert_eq!(string_of(&joined), text);
    assert!(lines_equal(&chars_of("same"), &chars_of("same")));
    assert!(!lines_equal(&chars_of("same"), &chars_of("same\n")));
}

#[test]
fn line_hash_is_the_rolling_hash() {
    assert_eq!(line_hash(&chars_of("")), 5381);
    assert_eq!(line_hash(&chars_of("a")), 177670);
    assert_eq!(line_hash(&chars_of("ab")), 177670 * 33 + 98);
    assert_eq!(line_hash(&chars_of("ab")), line_hash(&chars_of("ab")));
}

#[test]
fn equal_lines_get_equal_classes() {
    let mut table = LineTable::new(4);
    let first = table.intern(&chars_of("x\n"));
    let second = table.intern(&chars_of("y\n"));
    let again = table.intern(&chars_of("x\n"));
    assert_eq!(first, 0);
    assert_eq!(second, 1);
    assert_eq!(again, 0);
    let a = lines("x\ny\nx\n");
    let b = lines("y\nz\nx");
    let classes = classify(&a, 0, 3, &b, 0, 3);
    assert_eq!(classes.a, vec![0, 1, 0]);
    assert_eq!(classes.b, vec![1, 2, 3]);
    assert_eq!(classes.count, 4);
    let part = classify(&a, 1, 3, &b, 0, 1);
    assert_eq!(part.a, vec![0, 1]);
    assert_eq!(part.b, vec![0]);
}

#[test]
fn a_script_lists_what_lies_between_the_pairs() {
    let a: Vec<usize> = vec![0, 1, 2, 3, 4];
    let b: Vec<usize> = vec![0, 9, 2, 3, 8, 7, 4];
    let pairs: Vec<(usize, usize)> = vec![(0, 0), (2, 2), (3, 3), (4, 6)];
    assert_eq!(build_script(&a, &b, &pairs), vec![hunk(1, 1, 1, 1), hunk(4, 0, 4, 2)]);
    assert_eq!(build_script(&a, &a, &vec![(0, 0), (1, 1), (2, 2), (3, 3), (4, 4)]), vec![]);
    assert_eq!(build_script(&a, &b, &vec![]), vec![hunk(0, 5, 0, 7)]);
}

#[test]
fn every_search_finds_the_single_change() {
    let a = lines("a\nb\nc\nd\n");
    let b = lines("a\nB\nc\nd\n");
    for algorithm in all_algorithms() {
        assert_eq!(diff(&a, &b, algorithm).unwrap(), vec![hunk(1, 1, 1, 1)]);
        assert_eq!(diff(&a, &a, algorithm).unwrap(), vec![]);
        assert_eq!(diff(&a, &lines(""), algorithm).unwrap(), vec![hunk(0, 4, 0, 0)]);
        assert_eq!(diff(&lines(""), &b, algorithm).unwrap(), vec![hunk(0, 0, 0, 4)]);
        assert_eq!(diff(&lines(""), &lines(""), algorithm).unwrap(), vec![]);
    }
}

#[test]
fn shortest_scripts_cost_the_same() {
    let a = lines("a\nb\nc\na\nb\nb\na\n");
    let b = lines("c\nb\na\nb\na\nc\n");
    let cost = |script: &Vec<Hunk>| -> usize { script.iter().map(|h| h.base_len + h.other_len).sum() };
    let myers = diff(&a, &b, DiffAlgorithm::Myers).unwrap();
    let minimal = diff(&a, &b, DiffAlgorithm::Minimal).unwrap();
    // A longest common subsequence of the two has four lines.
    assert_eq!(cost(&myers), 7 + 6 - 2 * 4);
    assert_eq!(cost(&minimal), 7 + 6 - 2 * 4);
    for algorithm in all_algorithms() {
        let script = diff(&a, &b, algorithm).unwrap();
        assert!(cost(&script) >= cost(&minimal));
        for h in &script {
            for i in h.base_start..h.base_start + h.base_len {
                for j in h.other_start..h.other_start + h.other_len {
                    assert!(a[i] != b[j]);
                }
            }
        }
    }
}

#[test]
fn searches_take_the_moved_block_differently() {
    let a = lines("a\nb\n");
    let b = lines("b\na\n");
    let keeps_b = vec![hunk(0, 1, 0, 0), hunk(2, 0, 1, 1)];
    let keeps_a = vec![hunk(0, 0, 0, 1), hunk(1, 1, 2, 0)];
    assert_eq!(diff(&a, &b, DiffAlgorithm::Myers).unwrap(), keeps_b);
    assert_eq!(diff(&a, &b, DiffAlgorithm::Minimal).unwrap(), keeps_b);
    assert_eq!(diff(&a, &b, DiffAlgorithm::Patience).unwrap(), keeps_b);
    assert_eq!(diff(&a, &b, DiffAlgorithm::Histogram).unwrap(), keeps_a);
}

#[test]
fn merges_differ_where_the_searches_do() {
    let mut options = MergeOptions::default();
    options.algorithm = DiffAlgorithm::Myers;
    let by_myers = merge_strings("a\nb\n", "b\na\n", "a\nb\nc\n", &options).unwrap();
    assert_eq!(by_myers.content, "b\n<<<<<<<\na\n=======\nc\n>>>>>>>\n");
    assert_eq!(by_myers.conflicts, 1);
    options.algorithm = DiffAlgorithm::Histogram;
    let by_histogram = merge_strings("a\nb\n", "b\na\n", "a\nb\nc\n", &options).unwrap();
    assert_eq!(by_histogram.content, "b\na\n<<<<<<<\n=======\nb\nc\n>>>>>>>\n");
    assert_eq!(by_histogram.conflicts, 1);
}

#[test]
fn patience_anchors_on_single_lines() {
    // Between the common first and last line, every line is single on
    // both sides; the longest rising chain of them is the two brackets.
    let a = lines("{\nx\n}\n{\ny\n}\n");
    let b = lines("{\ny\n}\n{\nx\n}\n");
    let script = diff(&a, &b, DiffAlgorithm::Patience).unwrap();
    assert_eq!(script, vec![hunk(1, 1, 1, 1), hunk(4, 1, 4, 1)]);
    // A line that is single on both sides anchors the blocks around it,
    // whatever repeats in them.
    let a = lines("r\nr\nkey\nr\n");
    let b = lines("r\nkey\nr\nr\n");
    let script = diff(&a, &b, DiffAlgorithm::Patience).unwrap();
    assert_eq!(script, vec![hunk(1, 1, 1, 0), hunk(3, 0, 2, 1)]);
}

#[test]
fn the_planner_classes_the_regions() {
    let base = lines("a\nb\nc\nd\ne\n");
    let ours = lines("a\nB\nc\nd\ne\n");
    let theirs = lines("a\nb\nc\nD\ne\nf\n");
    let s1 = diff(&base, &ours, DiffAlgorithm::Myers).unwrap();
    let s2 = diff(&base, &theirs, DiffAlgorithm::Myers).unwrap();
    let regions = plan(&base, &ours, &theirs, &s1, &s2, MergeLevel::Eager);
    assert_eq!(
        regions,
        vec![
            region(RegionKind::Stable, (0, 1), (0, 1), (0, 1)),
            region(RegionKind::OursOnly, (1, 1), (1, 1), (1, 1)),
            region(RegionKind::Stable, (2, 1), (2, 1), (2, 1)),
            region(RegionKind::TheirsOnly, (3, 1), (3, 1), (3, 1)),
            region(RegionKind::Stable, (4, 1), (4, 1), (4, 1)),
            region(RegionKind::TheirsOnly, (5, 0), (5, 0), (5, 1)),
        ]
    );
    let both = lines("a\nX\nc\nd\ne\n");
    let s3 = diff(&base, &both, DiffAlgorithm::Myers).unwrap();
    assert_eq!(
        plan(&base, &both, &both, &s3, &s3, MergeLevel::Eager),
        vec![
            region(RegionKind::Stable, (0, 1), (0, 1), (0, 1)),
            region(RegionKind::Concordant, (1, 1), (1, 1), (1, 1)),
            region(RegionKind::Stable, (2, 3), (2, 3), (2, 3)),
        ]
    );
    assert_eq!(
        plan(&base, &ours, &both, &s1, &s3, MergeLevel::Eager),
        vec![
            region(RegionKind::Stable, (0, 1), (0, 1), (0, 1)),
            region(RegionKind::Conflict, (1, 1), (1, 1), (1, 1)),
            region(RegionKind::Stable, (2, 3), (2, 3), (2, 3)),
        ]
    );
}

#[test]
fn overlapping_hunks_make_one_region() {
    let base = lines("1\n2\n3\n4\n5\n6\n");
    let ours = lines("1\nA\nB\n4\n5\n6\n");
    let theirs = lines("1\n2\nC\nD\n5\n6\n");
    let s1 = diff(&base, &ours, DiffAlgorithm::Myers).unwrap();
    let s2 = diff(&base, &theirs, DiffAlgorithm::Myers).unwrap();
    assert_eq!(s1, vec![hunk(1, 2, 1, 2)]);
    assert_eq!(s2, vec![hunk(2, 2, 2, 2)]);
    assert_eq!(
        plan(&base, &ours, &theirs, &s1, &s2, MergeLevel::Eager),
        vec![
            region(RegionKind::Stable, (0, 1), (0, 1), (0, 1)),
            region(RegionKind::Conflict, (1, 3), (1, 3), (1, 3)),
            region(RegionKind::Stable, (4, 2), (4, 2), (4, 2)),
        ]
    );
}

#[test]
fn simplify_joins_across_three_lines_but_not_four() {
    let ours = lines("O\n1\n2\n3\nO\n1\n2\n3\n4\nO\n");
    let given = vec![
        region(RegionKind::Conflict, (0, 1), (0, 1), (0, 1)),
        region(RegionKind::Stable, (1, 3), (1, 3), (1, 3)),
        region(RegionKind::Conflict, (4, 1), (4, 1), (4, 1)),
        region(RegionKind::Stable, (5, 4), (5, 4), (5, 4)),
        region(RegionKind::Conflict, (9, 1), (9, 1), (9, 1)),
    ];
    let expected = vec![
        region(RegionKind::Conflict, (0, 5), (0, 5), (0, 5)),
        region(RegionKind::Stable, (5, 4), (5, 4), (5, 4)),
        region(RegionKind::Conflict, (9, 1), (9, 1), (9, 1)),
    ];
    assert_eq!(simplify(&given, 10, &ours, 10, false), expected);
    assert_eq!(simplify(&given, 10, &ours, 10, true), expected);
    assert!(has_alnum(&chars_of("  x\n")));
    assert!(has_alnum(&chars_of("7")));
    assert!(!has_alnum(&chars_of("  }\n")));
    assert!(!has_alnum(&chars_of("é\n")));
}

#[test]
fn the_emitter_writes_each_region() {
    let base = lines("b1\nb2\n");
    let ours = lines("o1\no2");
    let theirs = lines("t1\nt2\n");
    let given = vec![
        region(RegionKind::OursOnly, (0, 1), (0, 1), (0, 1)),
        region(RegionKind::Conflict, (1, 1), (1, 1), (1, 1)),
    ];
    let (text, conflicts) = emit(&given, &base, &ours, &theirs, MergeStyle::Normal, None, &no_labels());
    assert_eq!(string_of(&text), "o1\n<<<<<<<\no2\n=======\nt2\n>>>>>>>\n");
    assert_eq!(conflicts, 1);
    let (text, conflicts) = emit(&given, &base, &ours, &theirs, MergeStyle::Diff3, None, &no_labels());
    assert_eq!(string_of(&text), "o1\n<<<<<<<\no2\n|||||||\nb2\n=======\nt2\n>>>>>>>\n");
    assert_eq!(conflicts, 1);
    let union = Some(MergeFavor::Union);
    let (text, conflicts) = emit(&given, &base, &ours, &theirs, MergeStyle::Normal, union, &no_labels());
    assert_eq!(string_of(&text), "o1\no2\nt2\n");
    assert_eq!(conflicts, 0);
    let theirs_side = vec![region(RegionKind::TheirsOnly, (0, 2), (0, 2), (0, 2))];
    let (text, conflicts) =
        emit(&theirs_side, &base, &ours, &theirs, MergeStyle::Normal, None, &no_labels());
    assert_eq!(string_of(&text), "t1\nt2\n");
    assert_eq!(conflicts, 0);
}

#[test]
fn merge_lines_is_the_merge_of_the_strings() {
    let base = "a\nb\nc\n";
    let ours = "a\nO\nc\n";
    let theirs = "a\nT\nc\n";
    let by_strings = merge_strings(base, ours, theirs, &MergeOptions::default()).unwrap();
    let (text, conflicts) = merge_lines(
        &lines(base),
        &lines(ours),
        &lines(theirs),
        MergeStyle::Normal,
        None,
        DiffAlgorithm::Myers,
        MergeLevel::ZealousAlnum,
        &no_labels(),
    )
    .unwrap();
    assert_eq!(string_of(&text), by_strings.content);
    assert_eq!(conflicts, by_strings.conflicts);
    assert_eq!(by_strings.content, "a\n<<<<<<<\nO\n=======\nT\n>>>>>>>\nc\n");
}
