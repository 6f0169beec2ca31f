use pulp::book::Book;
use pulp::find::{is_hidden_dir, EbookFinderConfig};
use pulp::meta::{group_metadata, meta_vars_from_metadata, MetaVar};

#[test]
fn grouping_keeps_first_appearance_order() {
    let items = vec![
        ("creator".to_string(), "A".to_string()),
        ("title".to_string(), "T".to_string()),
        ("creator".to_string(), "B".to_string()),
        ("subject".to_string(), "S".to_string()),
        ("creator".to_string(), "C".to_string()),
    ];
    let grouped = group_metadata(&items);
    assert_eq!(
        grouped,
        vec![
            (
                "creator".to_string(),
                vec!["A".to_string(), "B".to_string(), "C".to_string()]
            ),
            ("title".to_string(), vec!["T".to_string()]),
            ("subject".to_string(), vec!["S".to_string()]),
        ]
    );
}

#[test]
fn grouping_of_empty_metadata_is_empty() {
    let items: Vec<(String, String)> = vec![];
    assert!(group_metadata(&items).is_empty());
}

#[test]
fn hidden_dirs_start_with_a_dot() {
    assert!(is_hidden_dir(&".git".to_string()));
    assert!(is_hidden_dir(&"books/.cache".to_string()));
    assert!(!is_hidden_dir(&"books/library".to_string()));
    assert!(!is_hidden_dir(&"books/".to_string()));
}

#[test]
fn finder_config_defaults() {
    let c = EbookFinderConfig::default();
    assert!(c.is_recursive);
    assert!(c.ignore_hidden);
}

#[test]
fn meta_vars_choose_by_arity() {
    let metadata = vec![
        ("title".to_string(), vec!["Only".to_string()]),
        (
            "creator".to_string(),
            vec!["A".to_string(), "B".to_string()],
        ),
        ("empty".to_string(), vec![]),
    ];
    let vars = meta_vars_from_metadata(&metadata);
    assert_eq!(vars.len(), 3);
    assert_eq!(vars[0].0, "title");
    match &vars[0].1 {
        MetaVar::One(s) => assert_eq!(s, "Only"),
        other => panic!("expected One, got {:?}", other),
    }
    match &vars[1].1 {
        MetaVar::Many(v) => assert_eq!(v, &vec!["A".to_string(), "B".to_string()]),
        other => panic!("expected Many, got {:?}", other),
    }
    match &vars[2].1 {
        MetaVar::Many(v) => assert!(v.is_empty()),
        other => panic!("expected Many, got {:?}", other),
    }
}

#[test]
fn chapter_with_res_rekeys() {
    let c = pulp::chapter::Chapter {
        res: "old".to_string(),
        header: "H".to_string(),
        spans: vec!["s".to_string()],
    };
    let c = c.with_res("new");
    assert_eq!(c.res, "new");
    assert_eq!(c.header, "H");
    assert_eq!(c.spans, vec!["s".to_string()]);
}

#[test]
fn book_chapter_with_res_rekeys() {
    let c = pulp::book::Chapter::default().with_res("res1");
    assert_eq!(c.res, "res1");
    assert!(c.header.is_empty());
    assert!(c.spans.is_empty());
    let b = Book { chapters: vec![c], meta: vec![] };
    assert_eq!(b.chapters.len(), 1);
}
