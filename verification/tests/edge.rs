use pulp::cat::simple::{default_custom_entities, read_content_simple};
use pulp::error::Error;
use pulp::extract::{select_chapters, NavNode, ResourceExtractorBuilder};

fn read(body: &str) -> pulp::cat::simple::SimpleChapter {
    let doc = format!("<html><head></head><body>{}</body></html>", body);
    let entities = default_custom_entities();
    read_content_simple("d".to_string(), "l".to_string(), doc.into_bytes(), &entities).unwrap()
}

#[test]
fn no_trailing_partial_span_is_flushed() {
    // text that no block close ever finalizes stays in the buffer and is
    // not emitted when the input ends
    let ch = read("loose text outside any block");
    assert!(ch.content.is_empty());
    assert!(ch.header.is_none());
}

#[test]
fn inline_markup_flows_into_one_span() {
    let ch = read("<p>one <i>two</i> three</p>");
    assert_eq!(ch.content, vec!["one two three".to_string()]);
}

#[test]
fn nbsp_decodes_to_nothing_and_shy_to_hyphen() {
    let ch = read("<p>a&nbsp;b</p><p>c&shy;d</p>");
    assert_eq!(ch.content, vec!["ab".to_string(), "c-d".to_string()]);
}

#[test]
fn comments_and_cdata_are_ignored() {
    let ch = read("<p>keep<!-- drop --></p><p><![CDATA[ also dropped ]]></p>");
    assert_eq!(ch.content, vec!["keep".to_string()]);
}

#[test]
fn first_anchor_close_ends_the_skip() {
    // everything up to the first closing anchor is consumed, matching the
    // single-level skip of the streaming pass
    let ch = read("<p>x<a href=\"u\">in</a>y</p>");
    assert_eq!(ch.content, vec!["xy".to_string()]);
}

#[test]
fn headers_h3_through_h6_count() {
    let ch = read("<h3>Three</h3><h6>Six</h6>");
    assert_eq!(ch.header, Some("Three".to_string()));
    assert_eq!(ch.content, vec!["Six".to_string()]);
}

#[test]
fn empty_toc_is_no_chapters() {
    let toc: Vec<NavNode> = vec![];
    match select_chapters(&toc) {
        Err(Error::NoChapters) => {}
        other => panic!("expected NoChapters, got {:?}", other),
    }
}

#[test]
fn numbered_back_matter_patterns_match() {
    let ext = ResourceExtractorBuilder::default().build().unwrap();
    let toc = vec![
        NavNode {
            label: "Something".to_string(),
            path: "text/bm01.xhtml".to_string(),
            order: 1,
            children: vec![],
        },
        NavNode {
            label: "Extra".to_string(),
            path: "text/ata2.xhtml".to_string(),
            order: 2,
            children: vec![],
        },
        NavNode {
            label: "Chapter".to_string(),
            path: "text/c01.xhtml".to_string(),
            order: 3,
            children: vec![],
        },
    ];
    let m = ext.extract(&toc).unwrap();
    let ign: Vec<&str> = m.ignored.iter().map(|r| r.path.as_str()).collect();
    assert_eq!(ign, vec!["text/bm01.xhtml", "text/ata2.xhtml"]);
    assert_eq!(m.candidates.len(), 1);
}

#[test]
fn blank_only_document_has_no_spans() {
    let ch = read("<p>   </p><div>\n\t</div><section> </section>");
    assert!(ch.content.is_empty());
}

#[test]
fn whitespace_carries_over_after_blank_block() {
    // a whitespace-only buffer is kept, not cleared, when its block closes
    let ch = read("<p> </p><p>x</p>");
    assert_eq!(ch.content, vec!["x".to_string()]);
}
