use rust_apps::drive::{
    folder_query, status_is_success, DriveClient, DriveFile, FileListResponse, FileListing,
    FILES_ENDPOINT,
};
use rust_apps::server::{
    array_report, content_type, not_found_response, ok_response_head, public_file, request_target,
    Server,
};

fn file(id: &str) -> DriveFile {
    DriveFile {
        id: id.to_string(),
        name: format!("{}.txt", id),
        mime_type: "text/plain".to_string(),
        size: Some("3".to_string()),
        modified_time: None,
    }
}

fn pairs(q: &[(String, String)]) -> Vec<(&str, &str)> {
    q.iter().map(|(a, b)| (a.as_str(), b.as_str())).collect()
}

#[test]
fn folder_queries() {
    assert_eq!(folder_query(Some("abc123")), "'abc123' in parents and trashed = false");
    assert_eq!(folder_query(None), "'root' in parents and trashed = false");
}

#[test]
fn first_page_request() {
    let client = DriveClient::new(Some("tok".to_string())).unwrap();
    assert_eq!(client.token.as_deref(), Some("tok"));
    assert_eq!(client.redirect_limit(), Some(10));
    let listing = FileListing::new(Some("f1"));
    let req = listing.request(&client);
    assert_eq!(req.url, FILES_ENDPOINT);
    assert_eq!(req.url, "https://www.googleapis.com/drive/v3/files");
    assert_eq!(
        pairs(&req.query),
        vec![
            ("q", "'f1' in parents and trashed = false"),
            ("fields", "nextPageToken,files(id,name,mimeType,size,modifiedTime)"),
            ("pageSize", "100"),
            ("orderBy", "name"),
        ]
    );
    assert_eq!(req.bearer.as_deref(), Some("tok"));
}

#[test]
fn pages_accumulate_in_order() {
    let client = DriveClient::new(None).unwrap();
    let mut listing = FileListing::new(None);
    let more = listing.add_page(FileListResponse {
        files: vec![file("a"), file("b")],
        next_page_token: Some("next".to_string()),
    });
    assert!(more);
    let req = listing.request(&client);
    assert_eq!(req.query.len(), 5);
    assert_eq!(pairs(&req.query)[4], ("pageToken", "next"));
    assert!(req.bearer.is_none());
    let more = listing.add_page(FileListResponse { files: vec![file("c")], next_page_token: None });
    assert!(!more);
    let ids: Vec<String> = listing.into_files().into_iter().map(|f| f.id).collect();
    assert_eq!(ids, vec!["a", "b", "c"]);
}

#[test]
fn success_statuses() {
    assert!(status_is_success(200));
    assert!(status_is_success(299));
    assert!(!status_is_success(199));
    assert!(!status_is_success(404));
}

#[test]
fn server_address_and_messages() {
    let s = Server::new("127.0.0.1:7878".to_string());
    assert_eq!(s.addr(), "127.0.0.1:7878");
    assert_eq!(s.listening_message(), "Listening on 127.0.0.1:7878");
    let a = [1u8, 2, 6, 8, 8, 8, 3, 4, 5];
    assert_eq!(array_report(&a[0..3]), "array: 1");
}

#[test]
fn request_targets() {
    assert_eq!(request_target(b"GET /index.html HTTP/1.1\r\nHost: x\r\n\r\n"), Some(b"/index.html".to_vec()));
    assert_eq!(request_target(b"GET / HTTP/1.0\r\n"), Some(b"/".to_vec()));
    assert_eq!(request_target(b"POST / HTTP/1.1\r\n"), None);
    assert_eq!(request_target(b"GET /x\r\n"), None);
    assert_eq!(request_target(b"GET /x"), None);
    assert_eq!(request_target(b"GE"), None);
}

#[test]
fn public_files_and_types() {
    assert_eq!(public_file("/srv/public", b"/"), Some("/srv/public/index.html".to_string()));
    assert_eq!(public_file("/srv/public", b"/css/site.css"), Some("/srv/public/css/site.css".to_string()));
    assert_eq!(public_file("/srv/public", b"/../etc/passwd"), None);
    assert_eq!(public_file("/srv/public", b"relative"), None);
    assert_eq!(public_file("/srv/public", b""), None);
    assert_eq!(public_file("/srv/public", "/é".as_bytes()), None);
    assert_eq!(content_type("/srv/public/index.html"), "text/html");
    assert_eq!(content_type("a.htm"), "text/html");
    assert_eq!(content_type("site.css"), "text/css");
    assert_eq!(content_type("app.js"), "application/javascript");
    assert_eq!(content_type("logo.png"), "application/octet-stream");
    assert_eq!(ok_response_head("text/css", 42), "HTTP/1.1 200 OK\r\nContent-Type: text/css\r\nContent-Length: 42\r\n\r\n");
    assert_eq!(not_found_response(), "HTTP/1.1 404 Not Found\r\nContent-Length: 0\r\n\r\n");
}
