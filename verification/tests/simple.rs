use pulp::cat::simple::{
    default_custom_entities, read_content_simple, transform_simple, unhash_path,
    SimpleAggregator,
};
use pulp::error::Error;
use pulp::extract::ResourceInfo;

fn read(body: &str) -> pulp::cat::simple::SimpleChapter {
    let doc = format!("<html><head><title>t</title></head><body>{}</body></html>", body);
    let entities = default_custom_entities();
    read_content_simple(
        "doc.xhtml".to_string(),
        "Label".to_string(),
        doc.into_bytes(),
        &entities,
    )
    .unwrap()
}

#[test]
fn scenario_break_and_blank_paragraph() {
    let ch = read("<p>Hello <br/>world</p><p>   </p>");
    assert_eq!(ch.content, vec!["Hello \nworld".to_string()]);
    assert!(ch.header.is_none());
}

#[test]
fn scenario_first_header_and_body() {
    let ch = read("<h1>Title</h1><p>Body text.</p>");
    assert_eq!(ch.header, Some("Title".to_string()));
    assert_eq!(ch.content, vec!["Body text.".to_string()]);
}

#[test]
fn scenario_custom_entity_decodes() {
    let ch = read("<p>a&mdash;b</p>");
    assert_eq!(ch.content, vec!["a\u{2014}b".to_string()]);
}

#[test]
fn numeric_character_references_decode() {
    let ch = read("<p>x&#8212;y&#x2014;z</p>");
    assert_eq!(ch.content, vec!["x\u{2014}y\u{2014}z".to_string()]);
}

#[test]
fn predefined_entities_decode() {
    let ch = read("<p>&lt;a&gt; &amp; &quot;q&quot; &apos;s&apos;</p>");
    assert_eq!(ch.content, vec!["<a> & \"q\" 's'".to_string()]);
}

#[test]
fn unknown_entity_is_markup_error() {
    let doc = "<html><head></head><body><p>&nosuch;</p></body></html>";
    let entities = default_custom_entities();
    let r = read_content_simple(
        "doc.xhtml".to_string(),
        "Label".to_string(),
        doc.as_bytes().to_vec(),
        &entities,
    );
    match r {
        Err(Error::Markup { doc, label, .. }) => {
            assert_eq!(doc, "doc.xhtml");
            assert_eq!(label, "Label");
        }
        other => panic!("expected Markup error, got {:?}", other),
    }
}

#[test]
fn unknown_entity_before_body_is_tolerated() {
    // the head is skipped without decoding, as is everything inside an anchor
    let doc = "<html><head><title>&weird;</title></head>\
               <body><p>ok<a href=\"x\">&weird;</a></p></body></html>";
    let entities = default_custom_entities();
    let ch = read_content_simple(
        "d".to_string(),
        "l".to_string(),
        doc.as_bytes().to_vec(),
        &entities,
    )
    .unwrap();
    assert_eq!(ch.content, vec!["ok".to_string()]);
}

#[test]
fn anchor_content_is_discarded() {
    let ch = read("<p>before <a href=\"n\">link text</a> after</p>");
    assert_eq!(ch.content, vec!["before  after".to_string()]);
}

#[test]
fn header_after_first_becomes_span() {
    let ch = read("<h1>One</h1><h2>Two</h2><p>Body</p>");
    assert_eq!(ch.header, Some("One".to_string()));
    assert_eq!(ch.content, vec!["Two".to_string(), "Body".to_string()]);
}

#[test]
fn nothing_before_head_end_contributes() {
    let doc = "<html><head><title>Ignored Title</title></head>\
               <body><p>Kept</p></body></html>";
    let entities = default_custom_entities();
    let ch = read_content_simple(
        "d".to_string(),
        "l".to_string(),
        doc.as_bytes().to_vec(),
        &entities,
    )
    .unwrap();
    assert_eq!(ch.content, vec!["Kept".to_string()]);
}

#[test]
fn section_and_div_close_spans() {
    let ch = read("<div>one</div><section>two</section><p>three</p>");
    assert_eq!(
        ch.content,
        vec!["one".to_string(), "two".to_string(), "three".to_string()]
    );
}

#[test]
fn malformed_markup_is_error() {
    let doc = "<html><head></head><body><p>text</wrong></body></html>";
    let entities = default_custom_entities();
    let r = read_content_simple(
        "bad.xhtml".to_string(),
        "Bad".to_string(),
        doc.as_bytes().to_vec(),
        &entities,
    );
    match r {
        Err(Error::Markup { doc, .. }) => assert_eq!(doc, "bad.xhtml"),
        other => panic!("expected Markup error, got {:?}", other),
    }
}

#[test]
fn aggregator_discards_blank_spans() {
    let mut a = SimpleAggregator::new("d".to_string(), "l".to_string());
    a.push_str("  \t \n ");
    a.push_span();
    assert!(a.spans.is_empty());
    a.push_str("  real  ");
    a.push_span();
    assert_eq!(a.spans, vec!["real".to_string()]);
}

#[test]
fn aggregator_first_header_once() {
    let mut a = SimpleAggregator::new("d".to_string(), "l".to_string());
    a.push_str(" First ");
    a.push_header();
    assert_eq!(a.first_header, Some("First".to_string()));
    assert!(a.spans.is_empty());
    a.push_str("Second");
    a.push_header();
    assert_eq!(a.first_header, Some("First".to_string()));
    assert_eq!(a.spans, vec!["Second".to_string()]);
}

#[test]
fn default_entities_table_contents() {
    let t = default_custom_entities();
    assert_eq!(t.len(), 14);
    assert_eq!(t[0], ("nbsp".to_string(), "".to_string()));
    assert_eq!(t[1], ("mdash".to_string(), "\u{2014}".to_string()));
    assert_eq!(t[2], ("ndash".to_string(), "\u{2013}".to_string()));
    assert_eq!(t[7], ("shy".to_string(), "-".to_string()));
    assert_eq!(t[13], ("Eacute".to_string(), "\u{c9}".to_string()));
}

#[test]
fn unhash_path_strips_fragment() {
    let with = ResourceInfo::new("l".to_string(), "dir/doc.xhtml#part2".to_string(), 1);
    assert_eq!(unhash_path(&with), "dir/doc.xhtml");
    let without = ResourceInfo::new("l".to_string(), "dir/doc.xhtml".to_string(), 1);
    assert_eq!(unhash_path(&without), "dir/doc.xhtml");
}

#[test]
fn transform_assembles_in_candidate_order() {
    let metadata = vec![
        ("title".to_string(), vec!["A Book".to_string()]),
        ("creator".to_string(), vec!["X".to_string(), "Y".to_string()]),
    ];
    let one = "<html><head></head><body><h1>One</h1><p>first</p></body></html>";
    let two = "<html><head></head><body><p>second</p></body></html>";
    let chapters = vec![
        (
            ResourceInfo::new("C1".to_string(), "c1.xhtml".to_string(), 1),
            Some(one.as_bytes().to_vec()),
        ),
        (
            ResourceInfo::new("C2".to_string(), "c2.xhtml".to_string(), 2),
            Some(two.as_bytes().to_vec()),
        ),
    ];
    let book = transform_simple(&metadata, chapters).unwrap();
    assert_eq!(book.chapters.len(), 2);
    assert_eq!(book.chapters[0].doc, "c1.xhtml");
    assert_eq!(book.chapters[0].label, "C1");
    assert_eq!(book.chapters[0].header, Some("One".to_string()));
    assert_eq!(book.chapters[1].content, vec!["second".to_string()]);
    assert_eq!(book.meta.len(), 2);
}

#[test]
fn missing_resource_aborts_whole_book() {
    let metadata = vec![];
    let good = "<html><head></head><body><p>fine</p></body></html>";
    let chapters = vec![
        (
            ResourceInfo::new("C1".to_string(), "c1.xhtml".to_string(), 1),
            Some(good.as_bytes().to_vec()),
        ),
        (
            ResourceInfo::new("Gone".to_string(), "missing.xhtml".to_string(), 2),
            None,
        ),
    ];
    match transform_simple(&metadata, chapters) {
        Err(Error::Resource { path, label }) => {
            assert_eq!(path, "missing.xhtml");
            assert_eq!(label, "Gone");
        }
        other => panic!("expected Resource error, got {:?}", other),
    }
}
