use threeway_merge_rs::{
    count_conflicts, merge_strings, DiffAlgorithm, MergeError, MergeFavor, MergeLevel, MergeOptions,
    MergeStyle,
};

fn all_algorithms() -> Vec<DiffAlgorithm> {
    vec![
        DiffAlgorithm::Myers,
        DiffAlgorithm::Minimal,
        DiffAlgorithm::Patience,
        DiffAlgorithm::Histogram,
    ]
}

fn all_styles() -> Vec<MergeStyle> {
    vec![MergeStyle::Normal, MergeStyle::Diff3, MergeStyle::ZealousDiff3]
}

fn with(algorithm: DiffAlgorithm, style: MergeStyle) -> MergeOptions {
    let mut options = MergeOptions::default();
    options.algorithm = algorithm;
    options.style = style;
    options
}

#[test]
fn identical_texts_merge_to_themselves() {
    let text = "one\ntwo\n\nthree\nlast without end";
    for algorithm in all_algorithms() {
        for style in all_styles() {
            let result = merge_strings(text, text, text, &with(algorithm, style)).unwrap();
            assert_eq!(result.content, text);
            assert_eq!(result.conflicts, 0);
            assert!(result.is_clean_merge());
            assert!(!result.has_conflicts());
        }
    }
}

#[test]
fn unchanged_ours_gives_theirs() {
    let base = "a\nb\nc\nd\n";
    let theirs = "a\nB\nc\nd\nextra";
    for algorithm in all_algorithms() {
        for style in all_styles() {
            let result = merge_strings(base, base, theirs, &with(algorithm, style)).unwrap();
            assert_eq!(result.content, theirs);
            assert_eq!(result.conflicts, 0);
        }
    }
}

#[test]
fn unchanged_theirs_gives_ours() {
    let base = "a\nb\nc\nd\n";
    let ours = "b\nc\nd\nd\n";
    for algorithm in all_algorithms() {
        for style in all_styles() {
            let result = merge_strings(base, ours, base, &with(algorithm, style)).unwrap();
            assert_eq!(result.content, ours);
            assert_eq!(result.conflicts, 0);
        }
    }
}

#[test]
fn concordant_edit_is_taken_once() {
    for algorithm in all_algorithms() {
        for style in all_styles() {
            let result = merge_strings("a\nb\nc", "a\nX\nc", "a\nX\nc", &with(algorithm, style)).unwrap();
            assert_eq!(result.content, "a\nX\nc");
            assert_eq!(result.conflicts, 0);
        }
    }
}

#[test]
fn true_conflict_is_written_with_markers() {
    for algorithm in all_algorithms() {
        let options = with(algorithm, MergeStyle::Normal);
        let result = merge_strings("a\nb\nc", "a\nOURS\nc", "a\nTHEIRS\nc", &options).unwrap();
        assert_eq!(result.content, "a\n<<<<<<<\nOURS\n=======\nTHEIRS\n>>>>>>>\nc");
        assert_eq!(result.conflicts, 1);
        assert_eq!(count_conflicts(&result.content), 1);
        assert!(result.has_conflicts());
        assert!(!result.is_clean_merge());
    }
}

#[test]
fn diff3_shows_the_base() {
    for algorithm in all_algorithms() {
        let options = with(algorithm, MergeStyle::Diff3);
        let result = merge_strings("a\nb\nc", "a\nOURS\nc", "a\nTHEIRS\nc", &options).unwrap();
        assert_eq!(result.content, "a\n<<<<<<<\nOURS\n|||||||\nb\n=======\nTHEIRS\n>>>>>>>\nc");
        assert_eq!(result.conflicts, 1);
        assert_eq!(count_conflicts(&result.content), 1);
    }
}

#[test]
fn union_takes_both_sides() {
    for algorithm in all_algorithms() {
        let mut options = with(algorithm, MergeStyle::Normal);
        options.favor = Some(MergeFavor::Union);
        let result = merge_strings("a\nb\nc", "a\nOURS\nc", "a\nTHEIRS\nc", &options).unwrap();
        assert_eq!(result.content, "a\nOURS\nTHEIRS\nc");
        assert_eq!(result.conflicts, 0);
        assert!(!result.content.contains('<'));
        assert!(!result.content.contains('='));
        assert!(!result.content.contains('>'));
    }
}

#[test]
fn favored_side_wins_silently() {
    let mut options = MergeOptions::default();
    options.favor = Some(MergeFavor::Ours);
    let result = merge_strings("a\nb\nc", "a\nOURS\nc", "a\nTHEIRS\nc", &options).unwrap();
    assert_eq!(result.content, "a\nOURS\nc");
    assert_eq!(result.conflicts, 0);
    options.favor = Some(MergeFavor::Theirs);
    let result = merge_strings("a\nb\nc", "a\nOURS\nc", "a\nTHEIRS\nc", &options).unwrap();
    assert_eq!(result.content, "a\nTHEIRS\nc");
    assert_eq!(result.conflicts, 0);
}

#[test]
fn changes_apart_merge_cleanly() {
    let base = "line1\nline2\nline3\nline4\nline5";
    let ours = "line1\nchanged2\nline3\nline4\nline5";
    let theirs = "line1\nline2\nline3\nchanged4\nline5";
    for algorithm in all_algorithms() {
        for style in all_styles() {
            let result = merge_strings(base, ours, theirs, &with(algorithm, style)).unwrap();
            assert_eq!(result.content, "line1\nchanged2\nline3\nchanged4\nline5");
            assert_eq!(result.conflicts, 0);
        }
    }
}

#[test]
fn touching_changes_conflict() {
    let base = "line1\nline2\nline3";
    let ours = "line1\nmodified\nline3";
    let theirs = "line1\nline2\nline3\nline4";
    let result = merge_strings(base, ours, theirs, &MergeOptions::default()).unwrap();
    assert_eq!(
        result.content,
        "line1\n<<<<<<<\nmodified\nline3\n=======\nline2\nline3\nline4\n>>>>>>>\n"
    );
    assert_eq!(result.conflicts, 1);
}

#[test]
fn labels_and_marker_size_shape_the_marker_lines() {
    let mut options = MergeOptions::default();
    options.style = MergeStyle::Diff3;
    options.ancestor_label = Some("BASE".to_string());
    options.ours_label = Some("OURS".to_string());
    options.theirs_label = Some("THEIRS".to_string());
    options.marker_size = 10;
    let result = merge_strings("Hello world", "Hello Rust world", "Hello beautiful world", &options).unwrap();
    assert_eq!(
        result.content,
        "<<<<<<<<<< OURS\nHello Rust world\n|||||||||| BASE\nHello world\n==========\nHello beautiful world\n>>>>>>>>>> THEIRS\n"
    );
    assert_eq!(result.conflicts, 1);
}

#[test]
fn marker_size_zero_means_seven() {
    let mut options = MergeOptions::default();
    options.marker_size = 0;
    let result = merge_strings("x\n", "y\n", "z\n", &options).unwrap();
    assert_eq!(result.content, "<<<<<<<\ny\n=======\nz\n>>>>>>>\n");
    assert_eq!(result.conflicts, 1);
}

#[test]
fn close_conflicts_are_joined() {
    let base = "a\nb\nc\nd\ne\n";
    let ours = "a\nX\nc\nY\ne\n";
    let theirs = "a\nP\nc\nQ\ne\n";
    let mut options = MergeOptions::default();
    options.level = MergeLevel::Zealous;
    let result = merge_strings(base, ours, theirs, &options).unwrap();
    assert_eq!(result.content, "a\n<<<<<<<\nX\nc\nY\n=======\nP\nc\nQ\n>>>>>>>\ne\n");
    assert_eq!(result.conflicts, 1);
    options.level = MergeLevel::Eager;
    let result = merge_strings(base, ours, theirs, &options).unwrap();
    assert_eq!(
        result.content,
        "a\n<<<<<<<\nX\n=======\nP\n>>>>>>>\nc\n<<<<<<<\nY\n=======\nQ\n>>>>>>>\ne\n"
    );
    assert_eq!(result.conflicts, 2);
}

#[test]
fn lines_without_letters_do_not_keep_conflicts_apart() {
    let base = "a\n{\n\n}\n---\nb\n";
    let ours = "X\n{\n\n}\n---\nY\n";
    let theirs = "P\n{\n\n}\n---\nQ\n";
    let mut options = MergeOptions::default();
    options.level = MergeLevel::ZealousAlnum;
    let result = merge_strings(base, ours, theirs, &options).unwrap();
    assert_eq!(
        result.content,
        "<<<<<<<\nX\n{\n\n}\n---\nY\n=======\nP\n{\n\n}\n---\nQ\n>>>>>>>\n"
    );
    assert_eq!(result.conflicts, 1);
    options.level = MergeLevel::Zealous;
    let result = merge_strings(base, ours, theirs, &options).unwrap();
    assert_eq!(
        result.content,
        "<<<<<<<\nX\n=======\nP\n>>>>>>>\n{\n\n}\n---\n<<<<<<<\nY\n=======\nQ\n>>>>>>>\n"
    );
    assert_eq!(result.conflicts, 2);
}

#[test]
fn zealous_level_takes_common_lines_out_of_a_conflict() {
    let base = "a\nb\nc\nd\ne\nf\ng\n";
    let ours = "a\n1\n2\n3\n4\n5\nO\ng\n";
    let theirs = "a\n1\n2\n3\n4\n5\nT\ng\n";
    let mut options = MergeOptions::default();
    options.level = MergeLevel::Zealous;
    let result = merge_strings(base, ours, theirs, &options).unwrap();
    assert_eq!(result.content, "a\n1\n2\n3\n4\n5\n<<<<<<<\nO\n=======\nT\n>>>>>>>\ng\n");
    assert_eq!(result.conflicts, 1);
    options.level = MergeLevel::Eager;
    let result = merge_strings(base, ours, theirs, &options).unwrap();
    assert_eq!(
        result.content,
        "a\n<<<<<<<\n1\n2\n3\n4\n5\nO\n=======\n1\n2\n3\n4\n5\nT\n>>>>>>>\ng\n"
    );
    assert_eq!(result.conflicts, 1);
}

#[test]
fn zealous_diff3_takes_common_ends_out_of_a_conflict() {
    let base = "a\nb\nc\nd\ne\nf\ng\n";
    let ours = "a\n1\n2\nO\n4\n5\ng\n";
    let theirs = "a\n1\n2\nT\n4\n5\ng\n";
    let options = with(DiffAlgorithm::Myers, MergeStyle::ZealousDiff3);
    let result = merge_strings(base, ours, theirs, &options).unwrap();
    assert_eq!(
        result.content,
        "a\n1\n2\n<<<<<<<\nO\n|||||||\nb\nc\nd\ne\nf\n=======\nT\n>>>>>>>\n4\n5\ng\n"
    );
    assert_eq!(result.conflicts, 1);
    let options = with(DiffAlgorithm::Myers, MergeStyle::Diff3);
    let result = merge_strings(base, ours, theirs, &options).unwrap();
    assert_eq!(
        result.content,
        "a\n<<<<<<<\n1\n2\nO\n4\n5\n|||||||\nb\nc\nd\ne\nf\n=======\n1\n2\nT\n4\n5\n>>>>>>>\ng\n"
    );
    assert_eq!(result.conflicts, 1);
}

#[test]
fn minimal_level_does_not_compare_the_sides() {
    let mut options = MergeOptions::default();
    options.level = MergeLevel::Minimal;
    let result = merge_strings("a\nb\nc\n", "a\nX\nc\n", "a\nX\nc\n", &options).unwrap();
    assert_eq!(result.content, "a\n<<<<<<<\nX\n=======\nX\n>>>>>>>\nc\n");
    assert_eq!(result.conflicts, 1);
}

#[test]
fn favor_never_adds_conflicts() {
    let base = "a\nb\nc\nd\ne\nf\ng\nh\ni\nj\n";
    let ours = "a\nB\nc\nd\ne\nf\ng\nh\nI\nj\n";
    let theirs = "a\nb2\nc\nd\ne\nf\ng\nh\ni2\nj\n";
    for algorithm in all_algorithms() {
        for style in all_styles() {
            let mut options = with(algorithm, style);
            let plain = merge_strings(base, ours, theirs, &options).unwrap();
            assert_eq!(plain.conflicts, 2);
            assert_eq!(count_conflicts(&plain.content), plain.conflicts);
            for favor in [MergeFavor::Ours, MergeFavor::Theirs, MergeFavor::Union] {
                options.favor = Some(favor);
                let favored = merge_strings(base, ours, theirs, &options).unwrap();
                assert!(favored.conflicts <= plain.conflicts);
                assert_eq!(favored.conflicts, 0);
            }
        }
    }
}

#[test]
fn algorithms_agree_where_lines_do_not_repeat() {
    let base = "a\nb\nc\nd\ne\nf\n";
    let ours = "a\nb\nX\nd\ne\nf\nnew\n";
    let theirs = "zero\na\nb\nc\nd\nY\nf\n";
    let expected = merge_strings(base, ours, theirs, &MergeOptions::default()).unwrap();
    assert_eq!(expected.content, "zero\na\nb\nX\nd\nY\nf\nnew\n");
    assert_eq!(expected.conflicts, 0);
    for algorithm in all_algorithms() {
        let result = merge_strings(base, ours, theirs, &with(algorithm, MergeStyle::Normal)).unwrap();
        assert_eq!(result.content, expected.content);
        assert_eq!(result.conflicts, expected.conflicts);
    }
}

#[test]
fn a_label_with_a_line_terminator_is_refused() {
    let mut options = MergeOptions::default();
    options.ours_label = Some("two\nlines".to_string());
    match merge_strings("a", "b", "c", &options) {
        Err(MergeError::InvalidInput(message)) => assert_eq!(message, "Invalid ours label"),
        other => panic!("unexpected: {:?}", other),
    }
    let mut options = MergeOptions::default();
    options.ancestor_label = Some("nul\0inside".to_string());
    options.ours_label = Some("two\nlines".to_string());
    match merge_strings("a", "b", "c", &options) {
        Err(MergeError::InvalidInput(message)) => assert_eq!(message, "Invalid ancestor label"),
        other => panic!("unexpected: {:?}", other),
    }
    let mut options = MergeOptions::default();
    options.theirs_label = Some("\n".to_string());
    match merge_strings("a", "b", "c", &options) {
        Err(MergeError::InvalidInput(message)) => assert_eq!(message, "Invalid theirs label"),
        other => panic!("unexpected: {:?}", other),
    }
}

#[test]
fn count_conflicts_counts_marker_triples() {
    assert_eq!(count_conflicts(""), 0);
    assert_eq!(count_conflicts("a\nb\n"), 0);
    assert_eq!(count_conflicts("<<<<<<< ours\na\n=======\nb\n>>>>>>> theirs\n"), 1);
    assert_eq!(count_conflicts("<<<<<<<\na\n|||||||\nx\n=======\nb\n>>>>>>>"), 1);
    assert_eq!(count_conflicts("<<<<<<\na\n======\nb\n>>>>>>\n"), 0);
    assert_eq!(
        count_conflicts("<<<<<<<\n=======\n>>>>>>>\ntext\n<<<<<<<<<\n=========\n>>>>>>>>>\n"),
        2
    );
    assert_eq!(count_conflicts("<<<<<<<\n=======\n"), 0);
}

#[test]
fn default_options() {
    let options = MergeOptions::default();
    assert_eq!(options.style, MergeStyle::Normal);
    assert_eq!(options.favor, None);
    assert_eq!(options.algorithm, DiffAlgorithm::Myers);
    assert_eq!(options.marker_size, 7);
    assert_eq!(options.level, MergeLevel::ZealousAlnum);
    assert_eq!(options.ancestor_label, None);
    assert_eq!(options.ours_label, None);
    assert_eq!(options.theirs_label, None);
}

#[test]
fn text_beyond_ascii_is_kept() {
    let base = "grüße\nwelt\n";
    let ours = "grüße\nschöne welt\n";
    let theirs = "viele grüße\nwelt\n";
    let result = merge_strings(base, ours, theirs, &MergeOptions::default()).unwrap();
    assert_eq!(
        result.content,
        "<<<<<<<\ngrüße\nschöne welt\n=======\nviele grüße\nwelt\n>>>>>>>\n"
    );
    assert_eq!(result.conflicts, 1);
}

#[test]
fn marker_lines_show_the_conflicts() {
    let cases = [
        ("a\nb\nc", "a\nOURS\nc", "a\nTHEIRS\nc"),
        ("a\nb\nc\n", "a\nb\nOURS", "a\nb\nTHEIRS"),
        ("1\n2\n3\n4\n5\n6\n7\n8\n9\n", "1\nx\n3\n4\n5\n6\n7\ny\n9\n", "1\nz\n3\n4\n5\n6\n7\nw\n9"),
        ("", "only ours", "only theirs\n"),
        ("same\n", "same\n", "same\n"),
    ];
    for (base, ours, theirs) in cases {
        for algorithm in all_algorithms() {
            for style in all_styles() {
                for level in [MergeLevel::Minimal, MergeLevel::Eager, MergeLevel::Zealous, MergeLevel::ZealousAlnum] {
                    for favor in [None, Some(MergeFavor::Ours), Some(MergeFavor::Theirs), Some(MergeFavor::Union)] {
                        let mut options = with(algorithm, style);
                        options.level = level;
                        options.favor = favor;
                        let result = merge_strings(base, ours, theirs, &options).unwrap();
                        assert_eq!(count_conflicts(&result.content), result.conflicts);
                    }
                }
            }
        }
    }
}

#[test]
fn zealous_diff3_divides_a_conflict_at_every_common_line() {
    let base = "a\nb\nc\nd\ne\n";
    let ours = "a\nX\nkeep\nY\ne\n";
    let theirs = "a\nP\nkeep\nQ\ne\n";
    let options = with(DiffAlgorithm::Myers, MergeStyle::ZealousDiff3);
    let result = merge_strings(base, ours, theirs, &options).unwrap();
    assert_eq!(
        result.content,
        "a\n<<<<<<<\nX\n|||||||\nb\nc\nd\n=======\nP\n>>>>>>>\nkeep\n<<<<<<<\nY\n|||||||\n=======\nQ\n>>>>>>>\ne\n"
    );
    assert_eq!(result.conflicts, 2);
    assert_eq!(count_conflicts(&result.content), 2);
    let options = with(DiffAlgorithm::Myers, MergeStyle::Diff3);
    let result = merge_strings(base, ours, theirs, &options).unwrap();
    assert_eq!(
        result.content,
        "a\n<<<<<<<\nX\nkeep\nY\n|||||||\nb\nc\nd\n=======\nP\nkeep\nQ\n>>>>>>>\ne\n"
    );
    assert_eq!(result.conflicts, 1);
    let mut options = with(DiffAlgorithm::Myers, MergeStyle::ZealousDiff3);
    options.level = MergeLevel::Minimal;
    let result = merge_strings("", "x", "x", &options).unwrap();
    assert_eq!(result.content, "x");
    assert_eq!(result.conflicts, 0);
}

#[test]
fn marker_lines_of_the_texts_are_counted_too() {
    let text = "<<<<<<<\n=======\n>>>>>>>\n";
    let result = merge_strings(text, text, text, &MergeOptions::default()).unwrap();
    assert_eq!(result.content, text);
    assert_eq!(result.conflicts, 0);
    assert_eq!(count_conflicts(&result.content), 1);
    let mut options = MergeOptions::default();
    options.marker_size = 3;
    let result = merge_strings("a\n", "b\n", "c\n", &options).unwrap();
    assert_eq!(result.content, "<<<\nb\n===\nc\n>>>\n");
    assert_eq!(result.conflicts, 1);
    assert_eq!(count_conflicts(&result.content), 0);
}

#[test]
fn searches_agree_where_no_line_repeats_or_moves() {
    let cases = [
        ("a\nb\nc\nd\ne\nf\n", "a\nb\nX\nd\ne\nf\nnew\n", "zero\na\nb\nc\nd\nY\nf\n"),
        ("1\n2\n3\n4\n5\n", "1\no1\n3\no2\n5\n", "1\nt1\n3\nt2\n5\n"),
        ("k\nl\nm\n", "k\nm\n", "l\nm\nn\n"),
        ("a\nb\nc", "a\nOURS\nc", "a\nTHEIRS\nc"),
        ("1\n2\n3\n4\n5\n6\n7\n", "1\nA\nB\nC\n5\n6\n7\n", "1\nA\nX\nC\n5\n6\nlast\n"),
    ];
    for (base, ours, theirs) in cases {
        for style in all_styles() {
            for level in [MergeLevel::Minimal, MergeLevel::Eager, MergeLevel::Zealous, MergeLevel::ZealousAlnum] {
                for favor in [None, Some(MergeFavor::Ours), Some(MergeFavor::Theirs), Some(MergeFavor::Union)] {
                    let mut options = with(DiffAlgorithm::Myers, style);
                    options.level = level;
                    options.favor = favor;
                    let expected = merge_strings(base, ours, theirs, &options).unwrap();
                    for algorithm in all_algorithms() {
                        options.algorithm = algorithm;
                        let result = merge_strings(base, ours, theirs, &options).unwrap();
                        assert_eq!(result.content, expected.content);
                        assert_eq!(result.conflicts, expected.conflicts);
                    }
                }
            }
        }
    }
}

#[test]
fn union_writes_equal_sides_once() {
    let mut options = MergeOptions::default();
    options.level = MergeLevel::Minimal;
    options.favor = Some(MergeFavor::Union);
    let result = merge_strings("a\nb\nc\n", "a\nX\nc\n", "a\nX\nc\n", &options).unwrap();
    assert_eq!(result.content, "a\nX\nc\n");
    assert_eq!(result.conflicts, 0);
    let result = merge_strings("a\nb\nc\n", "a\nX\nc\n", "a\nY\nc\n", &options).unwrap();
    assert_eq!(result.content, "a\nX\nY\nc\n");
    assert_eq!(result.conflicts, 0);
    let result = merge_strings("a\nb", "a\nX", "a\nY", &options).unwrap();
    assert_eq!(result.content, "a\nX\nY");
    assert_eq!(result.conflicts, 0);
}
