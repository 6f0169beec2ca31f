use pulp::error::Error;
use pulp::extract::{
    flatten_navpoints, select_chapters, NavNode, ResourceExtractor, ResourceExtractorBuilder,
    ResourceInfo, ResourceMatches,
};

fn node(label: &str, path: &str, order: usize, children: Vec<NavNode>) -> NavNode {
    NavNode { label: label.to_string(), path: path.to_string(), order, children }
}

fn info(label: &str, path: &str, order: usize) -> ResourceInfo {
    ResourceInfo::new(label.to_string(), path.to_string(), order)
}

#[test]
fn flatten_preorder_parent_before_children() {
    let toc = vec![
        node(
            "Part I",
            "part1.xhtml",
            0,
            vec![
                node("Chapter 1", "ch1.xhtml", 1, vec![node("Section 1.1", "s11.xhtml", 2, vec![])]),
                node("Chapter 2", "ch2.xhtml", 3, vec![]),
            ],
        ),
        node("Part II", "part2.xhtml", 4, vec![]),
    ];
    let flat = flatten_navpoints(&toc);
    let labels: Vec<&str> = flat.iter().map(|r| r.label.as_str()).collect();
    assert_eq!(
        labels,
        vec!["Part I", "Chapter 1", "Section 1.1", "Chapter 2", "Part II"]
    );
    assert_eq!(flat[1].path, "ch1.xhtml");
    assert_eq!(flat[2].order, 2);
}

#[test]
fn classification_partitions_and_sums() {
    let ext = ResourceExtractorBuilder::default().build().unwrap();
    let toc = vec![
        node("Cover", "cover.xhtml", 0, vec![]),
        node("Chapter 1", "ch1.xhtml", 1, vec![]),
        node("Copyright", "legal.xhtml", 2, vec![]),
        node("Chapter 2", "ch2.xhtml", 3, vec![]),
    ];
    let m = ext.extract(&toc).unwrap();
    assert_eq!(m.candidates.len() + m.ignored.len(), 4);
    let cand_labels: Vec<&str> = m.candidates.iter().map(|r| r.label.as_str()).collect();
    let ign_labels: Vec<&str> = m.ignored.iter().map(|r| r.label.as_str()).collect();
    assert_eq!(cand_labels, vec!["Chapter 1", "Chapter 2"]);
    assert_eq!(ign_labels, vec!["Cover", "Copyright"]);
}

#[test]
fn label_match_ignores_regardless_of_path() {
    let ignore_resources = regex::Regex::new("nevermatches").unwrap();
    let ignore_labels = regex::Regex::new("Skip").unwrap();
    let ext = ResourceExtractor::new(ignore_resources, ignore_labels);
    assert!(ext.should_ignore(&info("Skip me", "ordinary/chapter.xhtml", 1)));
    assert!(ext.should_ignore(&info("Skip me", "another/path.xhtml", 2)));
    assert!(!ext.should_ignore(&info("Keep me", "ordinary/chapter.xhtml", 3)));
}

#[test]
fn filename_match_ignores_regardless_of_label() {
    let ignore_resources = regex::Regex::new("toc").unwrap();
    let ignore_labels = regex::Regex::new("nevermatches").unwrap();
    let ext = ResourceExtractor::new(ignore_resources, ignore_labels);
    assert!(ext.should_ignore(&info("Any Label", "text/toc.xhtml", 1)));
    assert!(ext.should_ignore(&info("Other Label", "dir/brief-toc.xhtml", 2)));
    assert!(!ext.should_ignore(&info("Any Label", "text/body.xhtml", 3)));
    // the filename component alone is matched, not the directory part
    assert!(!ext.should_ignore(&info("Any Label", "toc/body.xhtml", 4)));
}

#[test]
fn make_unique_sorts_and_dedups() {
    let v = vec![
        info("Second ref", "ch1.xhtml#note", 2),
        info("First ref", "ch1.xhtml#top", 1),
        info("Other doc", "ch2.xhtml", 3),
    ];
    let u = ResourceMatches::make_unique(v);
    assert_eq!(u.len(), 2);
    assert_eq!(u[0].label, "First ref");
    assert_eq!(u[0].path, "ch1.xhtml#top");
    assert_eq!(u[0].order, 1);
    assert_eq!(u[1].path, "ch2.xhtml");
}

#[test]
fn make_unique_is_idempotent() {
    let v = vec![
        info("b", "doc.xhtml#x", 5),
        info("a", "doc.xhtml", 1),
        info("c", "other.xhtml", 3),
    ];
    let once = ResourceMatches::make_unique(v);
    let again: Vec<ResourceInfo> = once
        .iter()
        .map(|r| ResourceInfo::new(r.label.clone(), r.path.clone(), r.order))
        .collect();
    let twice = ResourceMatches::make_unique(again);
    assert_eq!(once.len(), twice.len());
    for (x, y) in once.iter().zip(twice.iter()) {
        assert_eq!(x.label, y.label);
        assert_eq!(x.path, y.path);
        assert_eq!(x.order, y.order);
    }
}

#[test]
fn make_unique_stable_on_equal_orders() {
    let v = vec![
        info("first", "a.xhtml", 1),
        info("second", "b.xhtml", 1),
        info("third", "c.xhtml", 0),
    ];
    let u = ResourceMatches::make_unique(v);
    let labels: Vec<&str> = u.iter().map(|r| r.label.as_str()).collect();
    assert_eq!(labels, vec!["third", "first", "second"]);
}

#[test]
fn into_unique_dedups_both_lists() {
    let m = ResourceMatches {
        candidates: vec![info("a", "ch.xhtml#1", 1), info("b", "ch.xhtml#2", 2)],
        ignored: vec![info("c", "cover.xhtml", 0), info("d", "cover.xhtml#top", 3)],
    };
    let u = m.into_unique();
    assert_eq!(u.candidates.len(), 1);
    assert_eq!(u.candidates[0].label, "a");
    assert_eq!(u.ignored.len(), 1);
    assert_eq!(u.ignored[0].label, "c");
}

#[test]
fn scenario_cover_and_anchored_chapter() {
    let toc = vec![
        node("Cover", "cover.xhtml", 0, vec![]),
        node("Chapter 1", "ch1.xhtml#top", 1, vec![]),
        node("Chapter 1", "ch1.xhtml#note1", 2, vec![]),
    ];
    let ext = ResourceExtractorBuilder::default().build().unwrap();
    let m = ext.extract(&toc).unwrap();
    assert_eq!(m.ignored.len(), 1);
    assert_eq!(m.ignored[0].path, "cover.xhtml");
    let cands = ResourceMatches::make_unique(m.candidates);
    assert_eq!(cands.len(), 1);
    assert_eq!(cands[0].label, "Chapter 1");
    assert_eq!(cands[0].path, "ch1.xhtml#top");
    assert_eq!(cands[0].order, 1);
}

#[test]
fn empty_selection_is_no_chapters_error() {
    let toc = vec![node("Cover", "cover.xhtml", 0, vec![])];
    match select_chapters(&toc) {
        Err(Error::NoChapters) => {}
        other => panic!("expected NoChapters, got {:?}", other),
    }
}

#[test]
fn select_chapters_keeps_candidates() {
    let toc = vec![
        node("Cover", "cover.xhtml", 0, vec![]),
        node("Chapter 1", "text/ch1.xhtml", 1, vec![]),
    ];
    let selected = select_chapters(&toc).unwrap();
    assert_eq!(selected.len(), 1);
    assert_eq!(selected[0].label, "Chapter 1");
}

#[test]
fn malformed_pattern_is_regex_error() {
    let b = ResourceExtractorBuilder {
        ignore_labels: vec!["(".to_string()],
        ignore_resources: vec!["fine".to_string()],
    };
    match b.build() {
        Err(Error::RegexError(msg)) => assert!(!msg.is_empty()),
        other => panic!("expected RegexError, got {:?}", other),
    }
}

#[test]
fn path_as_string_returns_path() {
    let r = info("x", "a/b.xhtml#frag", 7);
    assert_eq!(r.path_as_string(), "a/b.xhtml#frag");
}
