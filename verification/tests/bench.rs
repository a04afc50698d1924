use merged_trees::bench::{
    is_whitespace, revsets_bench_id, revsets_to_benchmark, BenchCommonAncestorsArgs,
    BenchIsAncestorArgs, BenchResolvePrefixArgs, BenchRevsetArgs,
};

#[test]
fn bench_ids_join_kind_and_inputs() {
    let args = BenchCommonAncestorsArgs::new("main".to_string(), "@-".to_string());
    assert_eq!(args.bench_id(), "commonancestors-main-@-");
    let args = BenchIsAncestorArgs::new("root".to_string(), "@".to_string());
    assert_eq!(args.bench_id(), "isancestor-root-@");
    let args = BenchRevsetArgs::new("all()".to_string());
    assert_eq!(args.bench_id(), "revset-all()");
    assert_eq!(BenchResolvePrefixArgs::bench_id("2ab"), "resolveprefix-2ab");
    assert_eq!(revsets_bench_id("heads(all())"), "revset heads(all())");
}

#[test]
fn revsets_file_skips_comments_and_blank_lines() {
    let text = "# benchmarks\nall()\n\n   heads(all())  \r\n\t# indented comment\n::@\n";
    assert_eq!(
        revsets_to_benchmark(text),
        vec![
            "all()".to_string(),
            "heads(all())".to_string(),
            "::@".to_string()
        ]
    );
}

#[test]
fn revsets_file_without_final_newline() {
    assert_eq!(revsets_to_benchmark("a\nb"), vec!["a".to_string(), "b".to_string()]);
    assert_eq!(revsets_to_benchmark(""), Vec::<String>::new());
    assert_eq!(revsets_to_benchmark(" \n \n"), Vec::<String>::new());
    assert_eq!(revsets_to_benchmark("x # y"), vec!["x # y".to_string()]);
}

#[test]
fn white_space_is_what_trimming_takes_it_to_be() {
    for code in 0..0x3100u32 {
        if let Some(c) = char::from_u32(code) {
            assert_eq!(is_whitespace(c), c.is_whitespace(), "U+{code:04X}");
        }
    }
    assert_eq!(revsets_to_benchmark("\u{2003}main\u{a0}\n"), vec!["main".to_string()]);
}
