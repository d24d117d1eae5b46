use name_resolver::aggregate::Counters;
use name_resolver::aggregate::process_pair;
use name_resolver::ident::format_id;
use name_resolver::ident::mask_id;
use name_resolver::ident::parse_id;
use name_resolver::ignore::IgnoreIndex;
use name_resolver::model::run_model;
use name_resolver::plan::expand_group;
use name_resolver::plan::plan_batches;

fn bv(s: &str) -> Vec<u8> {
    s.as_bytes().to_vec()
}

fn words(ws: &[&str]) -> Vec<Vec<u8>> {
    ws.iter().map(|w| bv(w)).collect()
}

const ID1: u128 = 0x00000000_0000_0000_0000_000000000001;
const ID2: u128 = 0x00000000_0000_0000_0000_000000000002;

fn id_line(id: u128) -> Vec<u8> {
    format_id(id)
}

#[test]
fn scenario_three_names_one_worker() {
    // wordlist ["Steve","Alex","Notch"], normalized and sorted; no suffixes,
    // no ignore list, one worker; the service resolves two of the three.
    let cands = words(&["alex", "notch", "steve"]);
    let sufs = words(&[""]);
    let index = IgnoreIndex::empty();
    let responses = vec![Some(vec![(ID1, bv("Steve")), (ID2, bv("Alex"))])];
    let (counters, output) = run_model(&cands, &sufs, 1, &index, &responses);
    assert_eq!(counters.calls, 1);
    assert_eq!(counters.raw, 2);
    assert_eq!(counters.accepted, 2);
    assert_eq!(output, vec![id_line(ID1), id_line(ID2)]);
}

#[test]
fn scenario_ignored_identifier_left_out() {
    // Same run, but the ignore list holds the first identifier exactly.
    let cands = words(&["alex", "notch", "steve"]);
    let sufs = words(&[""]);
    let lines = vec![id_line(ID1)];
    let index = IgnoreIndex::build(&lines, None).expect("well-formed ignore line");
    let responses = vec![Some(vec![(ID1, bv("Steve")), (ID2, bv("Alex"))])];
    let (counters, output) = run_model(&cands, &sufs, 1, &index, &responses);
    assert_eq!(counters.accepted, 1);
    assert_eq!(counters.raw, 2);
    assert_eq!(counters.calls, 1);
    assert_eq!(output, vec![id_line(ID2)]);
}

#[test]
fn scenario_suffix_expansion_one_batch() {
    // suffix list ["", "_01"], candidate ["bob"]: both expansions travel in
    // one batch, in order.
    let cands = words(&["bob"]);
    let sufs = words(&["", "_01"]);
    let batches = plan_batches(&cands, &sufs, 1);
    assert_eq!(batches.len(), 1);
    assert_eq!(batches[0], words(&["bob", "bob_01"]));
}

#[test]
fn scenario_transport_failure_absorbed() {
    // One batch, and its remote call fails: the run completes, the call is
    // counted, nothing is resolved or accepted.
    let cands = words(&["alex", "notch", "steve"]);
    let sufs = words(&[""]);
    let index = IgnoreIndex::empty();
    let responses = vec![None];
    let (counters, output) = run_model(&cands, &sufs, 1, &index, &responses);
    assert_eq!(counters.calls, 1);
    assert_eq!(counters.raw, 0);
    assert_eq!(counters.accepted, 0);
    assert!(output.is_empty());
}

#[test]
fn batches_never_exceed_ten_names() {
    let cands: Vec<Vec<u8>> = (0..123).map(|i| bv(&format!("name{i:03}"))).collect();
    let sufs = words(&["", "_a", "_b"]);
    let batches = plan_batches(&cands, &sufs, 4);
    // partitions of 123/4 = 30 candidates (plus a tail of 3); each partition
    // is one group, expanding to 90 names = 9 batches, the tail to 1.
    assert_eq!(batches.len(), 4 * 9 + 1);
    assert!(!batches.is_empty());
    for b in &batches {
        assert!(b.len() <= 10);
        assert!(!b.is_empty());
    }
}

#[test]
fn batches_cover_every_expansion_exactly_once() {
    let cands: Vec<Vec<u8>> = (0..57).map(|i| bv(&format!("w{i:02}"))).collect();
    let sufs = words(&["", "_x"]);
    let batches = plan_batches(&cands, &sufs, 3);
    let mut submitted: Vec<Vec<u8>> = Vec::new();
    for b in &batches {
        for n in b {
            submitted.push(n.clone());
        }
    }
    let mut expected: Vec<Vec<u8>> = Vec::new();
    for part in cands.chunks(57 / 3) {
        let exp = expand_group(&part.to_vec(), &sufs);
        expected.extend(exp);
    }
    submitted.sort();
    expected.sort();
    assert_eq!(submitted, expected);
}

#[test]
fn calls_counter_counts_failed_batches_too() {
    // 25 candidates, one worker: three batches; the middle one fails.
    let cands: Vec<Vec<u8>> = (0..25).map(|i| bv(&format!("n{i:02}"))).collect();
    let sufs = words(&[""]);
    let index = IgnoreIndex::empty();
    let responses = vec![
        Some(vec![(ID1, bv("a"))]),
        None,
        Some(vec![(ID2, bv("b"))]),
    ];
    let (counters, output) = run_model(&cands, &sufs, 1, &index, &responses);
    assert_eq!(counters.calls, 3);
    assert_eq!(counters.raw, 2);
    assert_eq!(counters.accepted, 2);
    assert_eq!(output.len(), 2);
}

#[test]
fn calls_counter_spans_all_workers() {
    // Four candidates over two workers: two partitions, one batch each.
    let cands = words(&["aaa", "bbb", "ccc", "ddd"]);
    let sufs = words(&[""]);
    let index = IgnoreIndex::empty();
    let batches = plan_batches(&cands, &sufs, 2);
    assert_eq!(batches.len(), 2);
    assert_eq!(batches[0], words(&["aaa", "bbb"]));
    assert_eq!(batches[1], words(&["ccc", "ddd"]));
    let responses = vec![Some(vec![(ID1, bv("aaa"))]), None];
    let (counters, output) = run_model(&cands, &sufs, 2, &index, &responses);
    assert_eq!(counters.calls, 2);
    assert_eq!(counters.raw, 1);
    assert_eq!(output, vec![id_line(ID1)]);
}

#[test]
fn truncated_run_drops_matching_identifiers() {
    let cands = words(&["steve"]);
    let sufs = words(&[""]);
    let lines = vec![bv("deadbeef")];
    let index = IgnoreIndex::build(&lines, Some(8)).expect("short entry is padded");
    let hit: u128 = 0xdeadbeef_1234_5678_9abc_def012345678;
    let miss: u128 = 0xfeedface_1234_5678_9abc_def012345678;
    let responses = vec![Some(vec![(hit, bv("steve")), (miss, bv("steve2"))])];
    let (counters, output) = run_model(&cands, &sufs, 1, &index, &responses);
    assert_eq!(counters.raw, 2);
    assert_eq!(counters.accepted, 1);
    assert_eq!(output, vec![id_line(miss)]);
}

#[test]
fn accepted_counter_matches_appended_lines() {
    let index = IgnoreIndex::empty();
    let mut counters = Counters::new();
    let mut output: Vec<Vec<u8>> = Vec::new();
    assert!(process_pair(&index, &mut counters, &mut output, ID1));
    assert!(process_pair(&index, &mut counters, &mut output, ID2));
    assert_eq!(counters.accepted, output.len() as u128);
    assert_eq!(output, vec![id_line(ID1), id_line(ID2)]);
}

#[test]
fn truncated_ignore_matches_on_leading_digits() {
    // Width 8: a stored eight-digit entry matches every identifier sharing
    // those leading digits, whatever the remaining digits hold.
    let lines = vec![bv("deadbeef")];
    let index = IgnoreIndex::build(&lines, Some(8)).expect("short entry is padded");
    let a: u128 = 0xdeadbeef_1234_5678_9abc_def012345678;
    let b: u128 = 0xdeadbeef_0000_0000_0000_000000000000;
    let c: u128 = 0xdeadbee0_1234_5678_9abc_def012345678;
    assert!(index.ignored(a));
    assert!(index.ignored(b));
    assert!(!index.ignored(c));
}

#[test]
fn malformed_ignore_line_fails_fast() {
    let lines = vec![id_line(ID1), bv("not a uuid")];
    match IgnoreIndex::build(&lines, None) {
        Err(i) => assert_eq!(i, 1),
        Ok(_) => panic!("malformed line must be rejected at load time"),
    }
    assert!(IgnoreIndex::build(&lines, None).is_err());
}

#[test]
fn exact_ignore_distinguishes_full_values() {
    let lines = vec![id_line(ID1)];
    let index = IgnoreIndex::build(&lines, None).expect("well-formed line");
    assert!(index.ignored(ID1));
    assert!(!index.ignored(ID2));
}

#[test]
fn truncation_mask_keeps_leading_digits() {
    let a: u128 = 0xdeadbeef_1234_5678_9abc_def012345678;
    assert_eq!(mask_id(a, 8), 0xdeadbeef_0000_0000_0000_000000000000);
    assert_eq!(mask_id(a, 32), a);
    assert_eq!(mask_id(a, 1), 0xd0000000_0000_0000_0000_000000000000);
}

#[test]
fn parse_accepts_both_canonical_forms() {
    assert_eq!(parse_id(&bv("deadbeef-1234-5678-9abc-def012345678")),
        Some(0xdeadbeef_1234_5678_9abc_def012345678));
    assert_eq!(parse_id(&bv("DEADBEEF123456789ABCDEF012345678")),
        Some(0xdeadbeef_1234_5678_9abc_def012345678));
    assert_eq!(parse_id(&bv("deadbeef")), None);
    assert_eq!(parse_id(&bv("deadbeef-1234-5678-9abc-def01234567z")), None);
    assert_eq!(parse_id(&bv("deadbeef+1234+5678+9abc+def012345678")), None);
}

#[test]
fn format_then_parse_round_trips() {
    let a: u128 = 0xdeadbeef_1234_5678_9abc_def012345678;
    let text = format_id(a);
    assert_eq!(text, bv("deadbeef-1234-5678-9abc-def012345678"));
    assert_eq!(parse_id(&text), Some(a));
}
