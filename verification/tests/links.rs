use strixonomy::links::{extract_links, extract_with_pattern, linkify_markdown_text};

#[test]
fn doi_and_pmid() {
    let links = extract_links("See DOI: 10.1000/xyz and PMID: 12345");
    assert_eq!(links.len(), 2);
    assert_eq!(links[0].kind, "DOI");
    assert_eq!(links[0].url, "https://doi.org/10.1000/xyz");
    assert_eq!(links[1].kind, "PubMedId");
    assert_eq!(links[1].url, "http://www.ncbi.nlm.nih.gov/pubmed/12345");
}

#[test]
fn omimps_before_omim() {
    let links = extract_links("OMIMPS: 99");
    assert_eq!(links.len(), 1);
    assert_eq!(links[0].kind, "OMIMPS");
}

#[test]
fn generic_regex_extractor() {
    let link =
        extract_with_pattern("Custom", r"(?i)CUSTOM:\s*(\w+)", "https://example.org/$1", "CUSTOM: abc")
            .unwrap();
    assert_eq!(link.url, "https://example.org/abc");
}

#[test]
fn linkify_embeds_markdown() {
    let md = linkify_markdown_text("PMID: 1");
    assert!(md.contains("[PMID: 1](http://www.ncbi.nlm.nih.gov/pubmed/1)"));
}
