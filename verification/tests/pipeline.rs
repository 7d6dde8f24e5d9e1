//! Relationship resolution, text extraction, and index merging.

use pptx_index::index::{DocumentIndex, PageRecord};
use pptx_index::rels::rels;
use pptx_index::textrun::{extract_texts, slide};
use pptx_index::ExtractError;

const IMAGE_TYPE: &str =
    "http://schemas.openxmlformats.org/officeDocument/2006/relationships/image";

fn rels_doc(body: &str) -> String {
    format!(
        "<?xml version=\"1.0\" encoding=\"UTF-8\" standalone=\"yes\"?>\n<Relationships xmlns=\"http://schemas.openxmlformats.org/package/2006/relationships\">{}</Relationships>",
        body
    )
}

fn rel(id: &str, ty: &str, target: &str) -> String {
    format!("<Relationship Id=\"{}\" Type=\"{}\" Target=\"{}\"/>", id, ty, target)
}

#[test]
fn rels_extracts_image_mapping() {
    let doc = rels_doc(&rel("rId1", IMAGE_TYPE, "../media/image1.png"));
    let (page, mapping) = rels(&doc, "ppt/slides/_rels/slide1.xml.rels").unwrap();
    assert_eq!(page, 1);
    assert_eq!(mapping.len(), 1);
    assert_eq!(mapping[0].0, "rId1");
    assert_eq!(mapping[0].1, "image1.png");
}

#[test]
fn rels_excludes_non_image_types() {
    let body = format!(
        "{}{}",
        rel("rId1", IMAGE_TYPE, "../media/image1.png"),
        rel(
            "rId2",
            "http://schemas.openxmlformats.org/officeDocument/2006/relationships/hyperlink",
            "https://example.org/"
        )
    );
    let doc = rels_doc(&body);
    let (_, mapping) = rels(&doc, "ppt/slides/_rels/slide1.xml.rels").unwrap();
    assert_eq!(mapping.len(), 1);
    assert_eq!(mapping[0].0, "rId1");
}

#[test]
fn rels_parse_error_carries_path() {
    let r = rels("this is not xml", "ppt/slides/_rels/slide1.xml.rels");
    match r {
        Err(ExtractError::Parse { path, .. }) => {
            assert_eq!(path, "ppt/slides/_rels/slide1.xml.rels");
        }
        other => panic!("expected a parse error, got {:?}", other.is_ok()),
    }
}

#[test]
fn rels_parse_error_message_names_path() {
    let e = rels("<unclosed", "ppt/slides/_rels/slide1.xml.rels").unwrap_err();
    let msg = e.message();
    assert!(msg.starts_with("Parse error: "));
    assert!(msg.ends_with(" in ppt/slides/_rels/slide1.xml.rels"));
}

#[test]
fn rels_missing_page_number() {
    let doc = rels_doc(&rel("rId1", IMAGE_TYPE, "../media/image1.png"));
    let r = rels(&doc, "ppt/slides/_rels/presentation.xml.rels");
    assert!(matches!(r, Err(ExtractError::MissingPageNumber)));
}

#[test]
fn rels_element_missing_target_is_skipped() {
    let doc = rels_doc(&format!(
        "<Relationship Id=\"rId1\" Type=\"{}\"/>{}",
        IMAGE_TYPE,
        rel("rId2", IMAGE_TYPE, "../media/image2.png")
    ));
    let (_, mapping) = rels(&doc, "ppt/slides/_rels/slide1.xml.rels").unwrap();
    assert_eq!(mapping.len(), 1);
    assert_eq!(mapping[0].0, "rId2");
}

#[test]
fn rels_duplicate_id_keeps_one_entry() {
    let body = format!(
        "{}{}",
        rel("rId1", IMAGE_TYPE, "../media/a.png"),
        rel("rId1", IMAGE_TYPE, "../media/b.png")
    );
    let doc = rels_doc(&body);
    let (_, mapping) = rels(&doc, "ppt/slides/_rels/slide1.xml.rels").unwrap();
    assert_eq!(mapping.len(), 1);
    assert_eq!(mapping[0].0, "rId1");
    assert_eq!(mapping[0].1, "b.png");
}

#[test]
fn three_text_runs_in_order() {
    let texts = extract_texts("<a:t>one</a:t><a:p/><a:t></a:t>tail<a:t>three</a:t>");
    assert_eq!(texts, vec!["one".to_string(), "".to_string(), "three".to_string()]);
}

#[test]
fn no_text_runs() {
    let texts = extract_texts("<p:sld>nothing of note</p:sld>");
    assert!(texts.is_empty());
}

#[test]
fn unclosed_text_run_yields_nothing() {
    let texts = extract_texts("<a:t>left open");
    assert!(texts.is_empty());
}

#[test]
fn slide_returns_page_and_texts() {
    let (page, texts) = slide("<a:t>hi</a:t>", "ppt/slides/slide5.xml").unwrap();
    assert_eq!(page, 5);
    assert_eq!(texts, vec!["hi".to_string()]);
}

#[test]
fn slide_without_page_number_fails() {
    let r = slide("<a:t>hi</a:t>", "ppt/slides/extra.xml");
    assert!(matches!(r, Err(ExtractError::MissingPageNumber)));
}

fn assert_same_record(a: &PageRecord, b: &PageRecord) {
    assert_eq!(a.page_no, b.page_no);
    assert_eq!(a.slide_master, b.slide_master);
    assert_eq!(a.images, b.images);
    assert_eq!(a.texts, b.texts);
}

#[test]
fn merge_order_does_not_matter() {
    let rels_path = "ppt/slides/_rels/slide1.xml.rels";
    let rels_content = rels_doc(&rel("rId1", IMAGE_TYPE, "../media/image1.png"));
    let slide_path = "ppt/slides/slide1.xml";
    let slide_content = "<a:t>hello</a:t>";

    let mut first = DocumentIndex::new("deck.pptx".to_string());
    first.process_entry(rels_path, &rels_content).unwrap();
    first.process_entry(slide_path, slide_content).unwrap();

    let mut second = DocumentIndex::new("deck.pptx".to_string());
    second.process_entry(slide_path, slide_content).unwrap();
    second.process_entry(rels_path, &rels_content).unwrap();

    assert_eq!(first.slides.len(), 1);
    assert_eq!(second.slides.len(), 1);
    assert_same_record(&first.slides[0], &second.slides[0]);

    // the relationship entry and the text entry both reached page 1's record
    assert_eq!(first.slides[0].page_no, 1);
    assert!(!first.slides[0].slide_master);
    assert_eq!(first.slides[0].images, vec!["image1.png".to_string()]);
    assert_eq!(first.slides[0].texts, vec!["hello".to_string()]);
}

#[test]
fn master_rels_fill_the_masters_map() {
    let path = "ppt/slideMasters/_rels/slideMaster2.xml.rels";
    let content = rels_doc(&rel("rId9", IMAGE_TYPE, "../media/bg.png"));
    let mut idx = DocumentIndex::new("deck.pptx".to_string());
    idx.process_entry(path, &content).unwrap();
    assert!(idx.slides.is_empty());
    assert_eq!(idx.masters.len(), 1);
    assert_eq!(idx.masters[0].page_no, 2);
    assert!(idx.masters[0].slide_master);
    assert_eq!(idx.masters[0].images, vec!["bg.png".to_string()]);
    assert!(idx.masters[0].texts.is_empty());
}

#[test]
fn unknown_entry_is_ignored() {
    let mut idx = DocumentIndex::new("deck.pptx".to_string());
    idx.process_entry("ppt/theme/theme1.xml", "<a:t>not read</a:t>").unwrap();
    idx.process_entry("docProps/core.xml", "").unwrap();
    assert!(idx.slides.is_empty());
    assert!(idx.masters.is_empty());
}

#[test]
fn media_entry_changes_no_record() {
    let mut idx = DocumentIndex::new("deck.pptx".to_string());
    idx.process_entry("ppt/media/image1.png", "").unwrap();
    assert!(idx.slides.is_empty());
    assert!(idx.masters.is_empty());
}

#[test]
fn empty_container_gives_empty_index() {
    let idx = DocumentIndex::new("deck.pptx".to_string());
    assert_eq!(idx.title, "deck.pptx");
    assert!(idx.slides.is_empty());
    assert!(idx.masters.is_empty());
}

#[test]
fn failing_entry_leaves_index_unchanged() {
    let mut idx = DocumentIndex::new("deck.pptx".to_string());
    let r = idx.process_entry("ppt/slides/_rels/slide1.xml.rels", "garbage");
    assert!(r.is_err());
    assert!(idx.slides.is_empty());
    assert!(idx.masters.is_empty());
}
