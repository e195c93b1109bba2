//! The OpenSubtitles client: requests and replies.

use serde_json::Value;
use subomatic::opensubtitles::{
    handle, most_downloaded, parse_download, parse_search, Attributes, Body, Client,
    DownloadResponse, Error, FileRef, Method, Reply, SearchDatum, SearchQuery, Subtitle,
};

fn text_of(v: &Value) -> String {
    v.as_str().unwrap_or_default().to_string()
}

/// The results of a search response, as a front-end reads them.
fn data_of(json: &str) -> Vec<SearchDatum> {
    let response: Value = serde_json::from_str(json).unwrap();
    let empty = Vec::new();
    response["data"]
        .as_array()
        .unwrap_or(&empty)
        .iter()
        .map(|d| {
            let a = &d["attributes"];
            SearchDatum {
                attributes: Attributes {
                    language: a["language"].as_str().map(String::from),
                    download_count: a["download_count"].as_i64().unwrap_or(0),
                    release: text_of(&a["release"]),
                    files: a["files"]
                        .as_array()
                        .unwrap_or(&empty)
                        .iter()
                        .map(|f| FileRef {
                            file_id: f["file_id"].as_i64().unwrap(),
                            file_name: text_of(&f["file_name"]),
                        })
                        .collect(),
                },
            }
        })
        .collect()
}

#[test]
fn query_params_include_only_set_fields() {
    let q = SearchQuery {
        query: Some("the matrix".to_string()),
        languages: Some("en".to_string()),
        ..Default::default()
    };
    assert_eq!(
        q.params(),
        vec![
            ("query", "the matrix".to_string()),
            ("languages", "en".to_string()),
        ]
    );
    assert!(SearchQuery::default().params().is_empty());
}

#[test]
fn parses_a_search_response() {
    let json = r#"{
        "total_count": 1,
        "data": [{
            "id": "123",
            "type": "subtitle",
            "attributes": {
                "language": "en",
                "download_count": 42,
                "release": "The.Matrix.1999.1080p",
                "files": [{ "file_id": 9876, "file_name": "matrix.srt" }]
            }
        }]
    }"#;
    let hits = parse_search(&data_of(json));
    assert_eq!(hits.len(), 1);
    assert_eq!(hits[0].file_id, 9876);
    assert_eq!(hits[0].language, "en");
    assert_eq!(hits[0].download_count, 42);
    assert_eq!(hits[0].file_name, "matrix.srt");
}

#[test]
fn parses_a_download_link() {
    let json = r#"{ "link": "https://dl.opensubtitles.com/x/matrix.srt", "remaining": 99 }"#;
    let value: Value = serde_json::from_str(json).unwrap();
    let response = DownloadResponse {
        link: text_of(&value["link"]),
    };
    assert_eq!(
        parse_download(response),
        "https://dl.opensubtitles.com/x/matrix.srt"
    );
}

#[test]
fn skips_hits_with_no_files() {
    let json = r#"{ "data": [{ "attributes": { "language": "en", "files": [] } }] }"#;
    assert!(parse_search(&data_of(json)).is_empty());
}

#[test]
fn download_without_login_errors() {
    let client = Client::new("key", "subomatic/0.1 (test)");
    assert!(matches!(client.download(1), Err(Error::NotLoggedIn)));
}

#[test]
fn all_params_come_in_a_stable_order() {
    let q = SearchQuery {
        query: Some("a".to_string()),
        languages: Some("b".to_string()),
        moviehash: Some("c".to_string()),
        imdb_id: Some("d".to_string()),
    };
    let keys: Vec<&str> = q.params().iter().map(|p| p.0).collect();
    assert_eq!(keys, ["query", "languages", "moviehash", "imdb_id"]);
}

#[test]
fn hits_take_the_first_file_and_default_the_language() {
    let json = r#"{ "data": [
        { "attributes": { "files": [] } },
        { "attributes": { "release": "r", "files": [{ "file_id": 1 }, { "file_id": 2 }] } }
    ] }"#;
    assert_eq!(
        parse_search(&data_of(json)),
        vec![Subtitle {
            file_id: 1,
            file_name: String::new(),
            language: String::new(),
            release: "r".to_string(),
            download_count: 0,
        }]
    );
}

#[test]
fn the_most_downloaded_hit_is_taken() {
    let hit = |file_id: i64, download_count: i64| Subtitle {
        file_id,
        file_name: String::new(),
        language: String::new(),
        release: String::new(),
        download_count,
    };
    assert_eq!(most_downloaded(&[]), None);
    assert_eq!(most_downloaded(&[hit(1, 5), hit(2, 9), hit(3, 9), hit(4, -1)]), Some(1));
    assert_eq!(most_downloaded(&[hit(1, 0), hit(2, 0), hit(3, 0)]), Some(0));
}

#[test]
fn requests_carry_the_key_and_after_login_the_token() {
    let mut client = Client::new("key", "app/1");
    let request = client.search(&SearchQuery {
        imdb_id: Some("7".to_string()),
        ..Default::default()
    });
    assert_eq!(request.method, Method::Get);
    assert_eq!(request.url, "https://api.opensubtitles.com/api/v1/subtitles");
    assert_eq!(request.query, vec![("imdb_id", "7".to_string())]);
    assert_eq!(request.body, Body::Nothing);
    let plain = vec![
        ("Api-Key", "key".to_string()),
        ("User-Agent", "app/1".to_string()),
        ("Accept", "application/json".to_string()),
    ];
    assert_eq!(request.headers, plain);

    let login = client.login("me", "secret");
    assert_eq!(login.method, Method::Post);
    assert_eq!(login.url, "https://api.opensubtitles.com/api/v1/login");
    assert_eq!(
        login.body,
        Body::Login {
            username: "me".to_string(),
            password: "secret".to_string()
        }
    );

    client.keep_token("t0k");
    let download = client.download(12).unwrap();
    assert_eq!(download.url, "https://api.opensubtitles.com/api/v1/download");
    assert_eq!(download.body, Body::Download { file_id: 12 });
    assert_eq!(download.headers[..3], plain[..]);
    assert_eq!(download.headers[3], ("Authorization", "Bearer t0k".to_string()));

    // The link leads elsewhere: neither the key nor the token goes with it.
    let fetch = client.fetch("https://dl.example/x");
    assert_eq!(fetch.url, "https://dl.example/x");
    assert_eq!(fetch.headers, vec![("User-Agent", "app/1".to_string())]);
}

#[test]
fn replies_are_classified() {
    assert_eq!(handle(Reply::Success(Ok("body".to_string()))), Ok("body".to_string()));
    let unread = handle(Reply::Success(Err("cut off".to_string()))).unwrap_err();
    assert_eq!(unread, Error::Http("cut off".to_string()));
    assert_eq!(unread.message(), "HTTP error: cut off");
    let refused = handle(Reply::Status(403, Ok("x".repeat(600)))).unwrap_err();
    assert_eq!(
        refused.message(),
        format!("OpenSubtitles API error 403: {}", "x".repeat(500))
    );
    let silent = handle(Reply::Status(500, Err("eof".to_string()))).unwrap_err();
    assert_eq!(
        silent,
        Error::Api {
            status: 500,
            body: "<error body unavailable: eof>".to_string()
        }
    );
    let failed = handle(Reply::Failure("no route".to_string())).unwrap_err();
    assert_eq!(failed, Error::Http("no route".to_string()));
    assert_eq!(
        Error::Parse("eof".to_string()).message(),
        "failed to parse response: eof"
    );
    assert_eq!(Error::NotLoggedIn.message(), "login is required before downloading");
}
