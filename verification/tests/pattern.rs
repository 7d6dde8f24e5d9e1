//! Page-number identification and path handling.

use pptx_index::pages::page_no;
use pptx_index::strs::base_name;
use pptx_index::index::{classify, EntryKind};
use pptx_index::ExtractError;

#[test]
fn page_no_simple_slide() {
    assert_eq!(page_no("ppt/slides/slide1.xml").unwrap(), 1);
}

#[test]
fn page_no_leading_zeros() {
    assert_eq!(page_no("slide07.xml").unwrap(), 7);
    assert_eq!(page_no("slide007.xml").unwrap(), 7);
}

#[test]
fn page_no_master() {
    assert_eq!(page_no("ppt/slideMasters/slideMaster3.xml").unwrap(), 3);
    assert_eq!(page_no("ppt/slideMasters/_rels/slideMaster12.xml.rels").unwrap(), 12);
}

#[test]
fn page_no_rels_path() {
    assert_eq!(page_no("ppt/slides/_rels/slide42.xml.rels").unwrap(), 42);
}

#[test]
fn page_no_any_character_before_extension() {
    // the character between the digits and "xml" is arbitrary
    assert_eq!(page_no("slide12Qxml").unwrap(), 12);
    // with nothing between them, the digit group gives one digit back
    assert_eq!(page_no("slide123xml").unwrap(), 12);
}

#[test]
fn page_no_leftmost_occurrence_wins() {
    assert_eq!(page_no("slide2.xml-slide9.xml").unwrap(), 2);
}

#[test]
fn page_no_missing() {
    let r = page_no("ppt/theme/theme1.xml");
    assert!(matches!(r, Err(ExtractError::MissingPageNumber)));
    assert!(matches!(page_no("slide.xml"), Err(ExtractError::MissingPageNumber)));
    assert!(matches!(page_no(""), Err(ExtractError::MissingPageNumber)));
}

#[test]
fn page_no_value_too_large() {
    // 99999999999 does not fit a u32
    assert!(matches!(
        page_no("slide99999999999.xml"),
        Err(ExtractError::MissingPageNumber)
    ));
    // the largest value that fits is accepted
    assert_eq!(page_no("slide4294967295.xml").unwrap(), 4294967295);
}

#[test]
fn missing_page_number_message() {
    let r = page_no("nothing-here");
    assert_eq!(r.unwrap_err().message(), "Can't find valid page no");
}

#[test]
fn base_name_splits_on_last_slash() {
    assert_eq!(base_name("../media/image1.png").unwrap(), "image1.png");
    assert_eq!(base_name("ppt/media/image2.jpeg").unwrap(), "image2.jpeg");
    assert_eq!(base_name("plain.png").unwrap(), "plain.png");
}

#[test]
fn base_name_empty_cases() {
    assert!(base_name("").is_none());
    assert!(base_name("dir/").is_none());
}

#[test]
fn classify_precedence() {
    assert_eq!(classify("ppt/media/image1.png"), EntryKind::Media);
    assert_eq!(classify("ppt/slides/_rels/slide1.xml.rels"), EntryKind::SlideRels);
    assert_eq!(classify("ppt/slideMasters/_rels/slideMaster1.xml.rels"), EntryKind::MasterRels);
    assert_eq!(classify("ppt/slides/slide1.xml"), EntryKind::Slide);
    assert_eq!(classify("ppt/theme/theme1.xml"), EntryKind::Other);
    assert_eq!(classify("docProps/core.xml"), EntryKind::Other);
}

#[test]
fn classify_rels_never_text() {
    // the generic slide directory is a prefix of the relationship directory,
    // yet the relationship rule wins
    assert_eq!(classify("ppt/slides/_rels/slide7.xml.rels"), EntryKind::SlideRels);
}
