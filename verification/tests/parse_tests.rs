use olsync::errors::SyncError;
use olsync::parse::{extract_projects_blob, parse_project_detail, parse_project_list};

fn listing_page(blob_attr: &str) -> String {
    let mut page = String::from("<html><head>");
    page.push_str("<meta name=\"ol-csrfToken\" content=\"tok\">");
    page.push_str("<meta name=\"ol-prefetchedProjectsBlob\" data-type=\"json\" content=\"");
    page.push_str(blob_attr);
    page.push_str("\"></head><body></body></html>");
    page
}

#[test]
fn blob_extraction_undoes_html_escaping() {
    let page = listing_page("{&quot;totalSize&quot;:1,&quot;projects&quot;:[]}");
    let blob = extract_projects_blob(&page).expect("the marker element is present");
    assert_eq!(blob, "{\"totalSize\":1,\"projects\":[]}");
}

#[test]
fn blob_extraction_handles_all_entities() {
    let page = listing_page("&quot;&amp;&lt;&gt;&#39;x");
    assert_eq!(extract_projects_blob(&page).unwrap(), "\"&<>'x");
}

#[test]
fn pages_without_the_marker_yield_nothing() {
    assert!(extract_projects_blob("<html><body>plain</body></html>").is_none());
    assert!(
        extract_projects_blob("<meta name=\"ol-prefetchedProjectsBlob\" but-no-content>")
            .is_none()
    );
}

#[test]
fn content_of_a_later_element_is_not_taken() {
    // The marker element itself has no content attribute; the next
    // element's must not be read in its place.
    let page = concat_pages(
        "<meta name=\"ol-prefetchedProjectsBlob\" data-x=\"1\">",
        "<meta name=\"other\" content=\"{}\">",
    );
    assert!(extract_projects_blob(&page).is_none());
}

fn concat_pages(a: &str, b: &str) -> String {
    let mut page = String::from("<html><head>");
    page.push_str(a);
    page.push_str(b);
    page.push_str("</head></html>");
    page
}

#[test]
fn listing_parses_into_projects() {
    let mut blob = String::from("{&quot;totalSize&quot;:2,&quot;projects&quot;:[");
    blob.push_str("{&quot;id&quot;:&quot;X&quot;,&quot;name&quot;:&quot;Thesis&quot;},");
    blob.push_str("{&quot;id&quot;:&quot;Y&quot;,&quot;name&quot;:&quot;Thesis&quot;}");
    blob.push_str("]}");
    let page = listing_page(&blob);
    let projects = parse_project_list(&page).unwrap();
    assert_eq!(projects.len(), 2);
    assert_eq!(projects[0].id, "X");
    assert_eq!(projects[1].id, "Y");
    assert_eq!(projects[1].name, "Thesis");
}

#[test]
fn listing_in_the_wrong_shape_is_a_protocol_error() {
    let no_marker = "<html></html>";
    assert!(matches!(parse_project_list(no_marker), Err(SyncError::RemoteProtocolError)));
    let not_json = listing_page("not json at all");
    assert!(matches!(parse_project_list(&not_json), Err(SyncError::RemoteProtocolError)));
    let no_projects = listing_page("{&quot;totalSize&quot;:0}");
    assert!(matches!(parse_project_list(&no_projects), Err(SyncError::RemoteProtocolError)));
    let bad_entry = listing_page("{&quot;projects&quot;:[{&quot;id&quot;:7}]}");
    assert!(matches!(parse_project_list(&bad_entry), Err(SyncError::RemoteProtocolError)));
}

#[test]
fn detail_yields_the_root_folder_id() {
    let doc = "{\"rootFolder\":[{\"_id\":\"folder-1\",\"name\":\"root\"}]}";
    assert_eq!(parse_project_detail(doc).unwrap(), "folder-1");
}

#[test]
fn detail_in_the_wrong_shape_is_a_protocol_error() {
    assert!(matches!(parse_project_detail("nope"), Err(SyncError::RemoteProtocolError)));
    assert!(matches!(
        parse_project_detail("{\"rootFolder\":[]}"),
        Err(SyncError::RemoteProtocolError)
    ));
    assert!(matches!(
        parse_project_detail("{\"rootFolder\":[{\"name\":\"x\"}]}"),
        Err(SyncError::RemoteProtocolError)
    ));
}
