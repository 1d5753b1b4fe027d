use wvec::wiki::{extract_single_line_tag_content, strip_wikitext, ArticleParser, ParseState, WikiArticle};

#[test]
fn test_strip_comments() {
    assert_eq!(
        strip_wikitext("hello <!-- comment --> world"),
        "hello  world"
    );
}

#[test]
fn test_strip_templates() {
    assert_eq!(strip_wikitext("hello {{template}} world"), "hello  world");
    assert_eq!(strip_wikitext("{{nested {{inner}}}}"), "");
}

#[test]
fn test_strip_links() {
    assert_eq!(strip_wikitext("[[Link]]"), "Link");
    assert_eq!(strip_wikitext("[[Target|Display]]"), "Display");
    assert_eq!(strip_wikitext("[[Category:Test]]"), "");
    assert_eq!(strip_wikitext("[[File:Image.png]]"), "");
}

#[test]
fn test_strip_formatting() {
    assert_eq!(strip_wikitext("'''bold'''"), "bold");
    assert_eq!(strip_wikitext("''italic''"), "italic");
}

#[test]
fn test_strip_headings() {
    assert_eq!(strip_wikitext("== Heading =="), "Heading ");
    assert_eq!(strip_wikitext("=== Sub ==="), "Sub ");
}

#[test]
fn test_strip_refs() {
    assert_eq!(strip_wikitext("text<ref>citation</ref>more"), "textmore");
    assert_eq!(strip_wikitext("text<ref name=\"x\"/>more"), "textmore");
}

#[test]
fn test_strip_tables() {
    assert_eq!(
        strip_wikitext("before {| table content |} after"),
        "before  after"
    );
}

#[test]
fn test_unicode() {
    assert_eq!(strip_wikitext("你好 [[世界|地球]] 再见"), "你好 地球 再见");
    assert_eq!(strip_wikitext("{{模板}} 中文"), " 中文");
}

#[test]
fn unclosed_markup() {
    assert_eq!(strip_wikitext("a <ref name=x"), "a  name=x");
    assert_eq!(strip_wikitext("x [[open link"), "x open link");
    assert_eq!(strip_wikitext("{{never closed"), "");
    assert_eq!(strip_wikitext("a <!-- open"), "a <!-- open");
}

#[test]
fn heading_markers_and_nested_links() {
    assert_eq!(strip_wikitext("text\n== Title ==\nbody"), "text\nTitle \nbody");
    assert_eq!(strip_wikitext("[[a|b [[c|d]] e]]"), "d]] e");
    assert_eq!(strip_wikitext("[[Image:x.png|caption]]"), "caption");
    assert_eq!(strip_wikitext("x=y"), "x=y");
}

#[test]
fn single_line_tag_content() {
    assert_eq!(extract_single_line_tag_content("<title>Article Name</title>", "title"), Some("Article Name".to_string()));
    assert_eq!(extract_single_line_tag_content("  <ns>0</ns>", "ns"), Some("0".to_string()));
    assert_eq!(extract_single_line_tag_content("<title></title>", "title"), None);
    assert_eq!(extract_single_line_tag_content("<title>open", "title"), None);
    assert_eq!(extract_single_line_tag_content("</ns>x<ns>", "ns"), None);
}

fn feed_all(parser: &mut ArticleParser, lines: &[&str]) -> Vec<WikiArticle> {
    lines.iter().filter_map(|l| parser.feed_line(l)).collect()
}

#[test]
fn parser_reads_articles_of_a_dump() {
    let dump = [
        "<mediawiki>",
        "  <page>",
        "    <title>First</title>",
        "    <ns>0</ns>",
        "    <text>Hello [[World|there]]",
        "more",
        "second line</text>",
        "  </page>",
        "  <page>",
        "    <title>Talk:Other</title>",
        "    <ns>1</ns>",
        "    <text>skipped</text>",
        "  </page>",
        "  <page>",
        "    <title>Third</title>",
        "    <text>'''Bold''' text</text>",
        "  </page>",
        "</mediawiki>",
    ];
    let mut parser = ArticleParser::new(true);
    let articles = feed_all(&mut parser, &dump);
    assert_eq!(articles.len(), 2);
    assert_eq!(articles[0].title, "First");
    assert_eq!(articles[0].namespace, 0);
    assert_eq!(articles[0].text, "Hello there\nmoresecond line");
    assert_eq!(articles[1].title, "Third");
    assert_eq!(articles[1].text, "Bold text");
    assert_eq!(parser.state, ParseState::Idle);
}

#[test]
fn parser_keeps_other_namespaces_when_asked() {
    let dump = ["<page>", "<title>A", "B</title>", "<ns>x</ns>", "<text>t</text>", "</page>"];
    let mut parser = ArticleParser::new(false);
    let articles = feed_all(&mut parser, &dump);
    assert_eq!(articles.len(), 1);
    assert_eq!(articles[0].title, "B");
    assert_eq!(articles[0].namespace, 0);
    assert_eq!(articles[0].text, "t");
}
