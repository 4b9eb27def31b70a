use fast_matcher::extract::{extract_ranges, shares_finding_function};
use fast_matcher::findings::{hit_set, matched_report_lines, parse_report, LineInfo};
use fast_matcher::intervals::IntervalSet;
use fast_matcher::path::normalize;
use fast_matcher::trace::{decode_lines, parse_record, Record, TraceDecoder, TraceError, SENTINEL};

fn lines(text: &[&str]) -> Vec<Vec<u8>> {
    text.iter().map(|l| l.as_bytes().to_vec()).collect()
}

fn names(ns: &[&str]) -> Vec<String> {
    ns.iter().map(|n| n.to_string()).collect()
}

#[test]
fn normalize_resolves_dots() {
    assert_eq!(normalize("a/./b/../c"), "a/c");
    assert_eq!(normalize("a/./b/../c"), normalize("a/c"));
}

#[test]
fn normalize_keeps_leading_parents() {
    assert_eq!(normalize("../../x"), "../../x");
    assert_eq!(normalize("a/../../x"), "../x");
}

#[test]
fn normalize_is_idempotent() {
    for p in ["a/./b/../c", "../../x", "/usr//lib/./x/..", "", "a/..", "/..", "./", "x/y/z/"] {
        let once = normalize(p);
        assert_eq!(normalize(&once), once);
    }
}

#[test]
fn normalize_edge_cases() {
    assert_eq!(normalize(""), ".");
    assert_eq!(normalize("a/.."), ".");
    assert_eq!(normalize("/.."), "/");
    assert_eq!(normalize("/"), "/");
    assert_eq!(normalize("//a//b/"), "/a/b");
    assert_eq!(normalize("./drivers/x.c"), "drivers/x.c");
}

#[test]
fn interval_insert_coalesces() {
    let mut s = IntervalSet::new();
    s.insert(1, 3);
    s.insert(4, 6);
    s.insert(10, 10);
    assert_eq!(s.ranges(), vec![(1, 6), (10, 10)]);
    assert!(s.contains(5));
    assert!(!s.contains(7));
}

#[test]
fn interval_merge_order_does_not_matter() {
    let parts = [vec![(1u64, 3u64), (20, 25)], vec![(4, 8)], vec![(22, 30), (0, 0)]];
    let mut forward = IntervalSet::new();
    for p in parts.iter() {
        let mut local = IntervalSet::new();
        for &(lo, hi) in p {
            local.insert(lo, hi);
        }
        forward.merge(&local);
    }
    let mut backward = IntervalSet::new();
    for p in parts.iter().rev() {
        for &(lo, hi) in p.iter().rev() {
            backward.insert(lo, hi);
        }
    }
    assert_eq!(forward.ranges(), backward.ranges());
    assert_eq!(forward.ranges(), vec![(0, 8), (20, 30)]);
}

#[test]
fn record_parses_two_hex_fields() {
    assert_eq!(parse_record(&b"ffffffff81000010,ffffffff81000020".to_vec()), Record::Pair(0xffffffff81000010, 0xffffffff81000020));
    assert_eq!(parse_record(&b"a,B \r".to_vec()), Record::Pair(10, 11));
    assert_eq!(parse_record(&b"+1f,2".to_vec()), Record::Pair(31, 2));
}

#[test]
fn record_with_wrong_field_count_is_malformed() {
    assert_eq!(parse_record(&b"10".to_vec()), Record::Malformed);
    assert_eq!(parse_record(&b"10,20,30".to_vec()), Record::Malformed);
    assert_eq!(parse_record(&b"".to_vec()), Record::Malformed);
}

#[test]
fn record_with_bad_number() {
    assert_eq!(parse_record(&b"xy,10".to_vec()), Record::BadNumber);
    assert_eq!(parse_record(&b",10".to_vec()), Record::BadNumber);
    assert_eq!(parse_record(&b"1ffffffffffffffff,1".to_vec()), Record::BadNumber);
}

#[test]
fn decode_plain_record() {
    assert_eq!(decode_lines(&lines(&["10,20"])), Ok(vec![(0x10, 0x20)]));
}

#[test]
fn decode_sentinel_pair() {
    let t = lines(&["10,ffffffffffffffff", "ffffffffffffffff,30", "40,50"]);
    assert_eq!(decode_lines(&t), Ok(vec![(0x10, 0x30), (0x40, 0x50)]));
}

#[test]
fn decode_sentinel_chain_and_open_end() {
    let t = lines(&["10,ffffffffffffffff", "ffffffffffffffff,ffffffffffffffff", "ffffffffffffffff,30"]);
    assert_eq!(decode_lines(&t), Ok(vec![(0x10, 0x30)]));
    let open = lines(&["10,20", "30,ffffffffffffffff"]);
    assert_eq!(decode_lines(&open), Ok(vec![(0x10, 0x20), (0x30, SENTINEL)]));
}

#[test]
fn decode_skips_malformed_lines() {
    let t = lines(&["10,20", "garbage", "30,4", "5,6,7"]);
    assert_eq!(decode_lines(&t), Ok(vec![(0x10, 0x20), (0x30, 0x4)]));
}

#[test]
fn decode_errors() {
    assert_eq!(decode_lines(&lines(&["10,20", "zz,1"])), Err(TraceError::BadNumber));
    assert_eq!(decode_lines(&lines(&["10,ffffffffffffffff", "20,30"])), Err(TraceError::UnpairedSentinel));
}

#[test]
fn decoder_fed_line_by_line() {
    let mut d = TraceDecoder::new();
    assert_eq!(d.feed(&b"1,ffffffffffffffff".to_vec()), Ok(None));
    assert_eq!(d.feed(&b"ffffffffffffffff,2".to_vec()), Ok(Some((1, 2))));
    assert_eq!(d.finish(), None);
}

#[test]
fn shared_function_test() {
    let wanted = names(&["foo"]);
    assert!(shares_finding_function(&names(&["inl", "foo"]), &names(&["foo"]), &wanted));
    assert!(!shares_finding_function(&names(&["foo"]), &names(&["bar"]), &wanted));
    assert!(!shares_finding_function(&names(&["bar"]), &names(&["bar"]), &wanted));
}

#[test]
fn extraction_fills_forward_gap() {
    let edges = vec![(0x10u64, 0x20u64), (0x30, 0x40)];
    let f = vec![names(&["foo"]), names(&["foo"])];
    let r = extract_ranges(&edges, &f, &f, &names(&["foo"]));
    assert_eq!(r.ranges(), vec![(0x10, 0x10), (0x20, 0x30), (0x40, 0x40)]);
}

#[test]
fn extraction_skips_gap_outside_findings_or_backward() {
    let edges = vec![(0x10u64, 0x20u64), (0x30, 0x40)];
    let f = vec![names(&["foo"]), names(&["foo"])];
    let r = extract_ranges(&edges, &f, &f, &names(&["bar"]));
    assert_eq!(r.ranges(), vec![(0x10, 0x10), (0x20, 0x20), (0x30, 0x30), (0x40, 0x40)]);
    let back = vec![(0x10u64, 0x50u64), (0x30, 0x40)];
    let r2 = extract_ranges(&back, &f, &f, &names(&["foo"]));
    assert_eq!(r2.ranges(), vec![(0x10, 0x10), (0x30, 0x30), (0x40, 0x40), (0x50, 0x50)]);
}

#[test]
fn extraction_two_chained_edges() {
    let edges = vec![(1u64, 5u64), (5, 6)];
    let f = vec![names(&["foo"]), names(&["foo"])];
    let r = extract_ranges(&edges, &f, &f, &names(&["foo"]));
    assert_eq!(r.ranges(), vec![(1, 1), (5, 6)]);
}

#[test]
fn location_from_text() {
    let l = LineInfo::from_location("./f.c:10").unwrap();
    assert_eq!(l, LineInfo::new("f.c", 10));
    assert!(LineInfo::from_location("f.c").is_none());
    assert!(LineInfo::from_location("f.c:x").is_none());
    assert!(LineInfo::from_location("f.c:4294967296").is_none());
    assert_eq!(LineInfo::from_location("a/b.c:7:3").unwrap(), LineInfo::new("a/b.c", 7));
}

#[test]
fn resolved_location_strips_prefix() {
    let l = LineInfo::resolved("/src/linux/drivers/x.c", 42, "/src/linux");
    assert_eq!(l, LineInfo::new("drivers/x.c", 42));
    let k = LineInfo::resolved("/other/x.c", 1, "/src/linux");
    assert_eq!(k.path, "/other/x.c");
}

#[test]
fn report_parsing() {
    let f = parse_report("warn: drivers/x.c:42 bar() something\nnoise line\nfs/y.c:7 baz() x\nfs/y.c:7 qux()\n").unwrap();
    assert_eq!(f.entries.len(), 3);
    assert_eq!(f.entries[0].0, LineInfo::new("drivers/x.c", 42));
    assert_eq!(f.entries[0].1, "bar");
    assert!(f.contains(&LineInfo::new("fs/y.c", 7)));
    let mut fns = f.function_names();
    fns.sort();
    assert_eq!(fns, vec!["bar".to_string(), "qux".to_string()]);
}

#[test]
fn findings_intersection() {
    let f = parse_report("f.c:10 foo()\n").unwrap();
    let resolved = vec![LineInfo::new("f.c", 10), LineInfo::new("f.c", 11), LineInfo::new("./f.c", 10)];
    let hits = hit_set(&resolved, &f, false);
    assert_eq!(hits, vec![LineInfo::new("f.c", 10)]);
    let all = hit_set(&resolved, &f, true);
    assert_eq!(all, vec![LineInfo::new("f.c", 10), LineInfo::new("f.c", 11)]);
}

#[test]
fn match_mode_keeps_report_lines() {
    let report = vec!["drivers/x.c:42 bar() warn".to_string(), "drivers/x.c:43 bar()".to_string(), "plain".to_string()];
    let hits = vec![LineInfo::new("drivers/x.c", 42)];
    assert_eq!(matched_report_lines(&report, &hits), vec!["drivers/x.c:42 bar() warn".to_string()]);
}

#[test]
fn end_to_end_single_finding() {
    let findings = parse_report("drivers/x.c:42 bar()\n").unwrap();
    let edges = decode_lines(&lines(&["ffffffff81000000,ffffffffffffffff", "ffffffffffffffff,ffffffff81000100", "ffffffff81000100,ffffffff81000110"])).unwrap();
    assert_eq!(edges, vec![(0xffffffff81000000, 0xffffffff81000100), (0xffffffff81000100, 0xffffffff81000110)]);
    let f = vec![names(&["bar"]), names(&["bar"])];
    let ranges = extract_ranges(&edges, &f, &f, &findings.function_names());
    assert!(ranges.contains(0xffffffff81000100));
    let resolved = vec![LineInfo::new("drivers/x.c", 42), LineInfo::new("drivers/x.c", 43)];
    let hits = hit_set(&resolved, &findings, false);
    assert_eq!(hits, vec![LineInfo::new("drivers/x.c", 42)]);
}
