use pinniped_core::document::Document;

#[test]
fn test_basic_parsing() {
    let markdown = "# Hello World";
    let result = Document::parse(markdown);
    assert!(result.is_ok());

    let document = result.unwrap();
    assert_eq!(document.blocks.len(), 1);
}

#[test]
fn test_serialization() {
    let markdown = "# Test\n\nParagraph";
    let document = Document::parse(markdown).unwrap();

    assert_eq!(document.blocks.len(), 2);
    assert_eq!(document.clone(), document);
    assert_eq!(document.to_markdown(), markdown);
}
