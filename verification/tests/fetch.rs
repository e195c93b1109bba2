//! Fetching a subtitle, one request at a time.

use subomatic::fetch::{check_free, report, Searching};
use subomatic::opensubtitles::{
    Attributes, Body, Client, DownloadResponse, FileRef, Method, SearchDatum, SearchQuery,
};

fn datum(file_ids: &[i64], download_count: i64) -> SearchDatum {
    SearchDatum {
        attributes: Attributes {
            language: Some("en".to_string()),
            download_count,
            release: String::new(),
            files: file_ids
                .iter()
                .map(|&file_id| FileRef {
                    file_id,
                    file_name: format!("{file_id}.srt"),
                })
                .collect(),
        },
    }
}

#[test]
fn a_fetch_goes_from_search_to_text() {
    let query = SearchQuery {
        query: Some("the matrix".to_string()),
        ..Default::default()
    };
    let (searching, search) = Searching::start(Client::new("key", "app/1"), &query);
    assert_eq!(search.method, Method::Get);
    assert_eq!(search.query, vec![("query", "the matrix".to_string())]);
    assert_eq!(search.headers.len(), 3);

    // The result with the most downloads has no file.
    let data = [datum(&[1], 5), datum(&[2, 3], 42), datum(&[], 99), datum(&[4], 7)];
    let (logging_in, login) = searching.found(&data, "me", "secret").ok().unwrap();
    assert_eq!(login.url, "https://api.opensubtitles.com/api/v1/login");
    assert_eq!(
        login.body,
        Body::Login {
            username: "me".to_string(),
            password: "secret".to_string()
        }
    );

    let (asking, download) = logging_in.logged_in("t0k");
    assert_eq!(download.body, Body::Download { file_id: 2 });
    assert_eq!(download.headers[3], ("Authorization", "Bearer t0k".to_string()));

    let (hit, fetch) = asking.linked(DownloadResponse {
        link: "https://dl.example/2".to_string(),
    });
    assert_eq!(hit.file_id, 2);
    assert_eq!(hit.file_name, "2.srt");
    assert_eq!(hit.download_count, 42);
    assert_eq!(fetch.url, "https://dl.example/2");
    assert_eq!(fetch.headers, vec![("User-Agent", "app/1".to_string())]);
}

#[test]
fn of_equal_hits_the_first_listed_is_downloaded() {
    let (searching, _) = Searching::start(Client::new("key", "app/1"), &SearchQuery::default());
    let data = [datum(&[], 8), datum(&[1], 3), datum(&[2], 8), datum(&[3], 8)];
    let (logging_in, _) = searching.found(&data, "me", "secret").ok().unwrap();
    let (_, download) = logging_in.logged_in("t");
    assert_eq!(download.body, Body::Download { file_id: 2 });
}

#[test]
fn a_fetch_ends_where_nothing_is_found() {
    let (searching, _) = Searching::start(Client::new("key", "app/1"), &SearchQuery::default());
    let e = searching.found(&[datum(&[], 9)], "me", "secret").err();
    assert_eq!(e, Some("no subtitles found for that search".to_string()));
}

#[test]
fn an_existing_file_is_not_overwritten() {
    assert_eq!(check_free("a.srt", false), Ok(()));
    assert_eq!(
        check_free("a.srt", true).unwrap_err(),
        "refusing to overwrite existing file a.srt; pass --output to choose where to save"
    );
}

#[test]
fn a_download_is_reported() {
    let (searching, _) = Searching::start(Client::new("key", "app/1"), &SearchQuery::default());
    let (logging_in, _) = searching.found(&[datum(&[1], -3)], "me", "secret").ok().unwrap();
    let (asking, _) = logging_in.logged_in("t");
    let (mut hit, _) = asking.linked(DownloadResponse {
        link: String::new(),
    });
    assert_eq!(
        report(&hit, "out/1.srt"),
        "Downloaded a en subtitle (-3 downloads) -> out/1.srt"
    );
    hit.download_count = i64::MIN;
    assert!(report(&hit, "x").contains("(-9223372036854775808 downloads)"));
    hit.download_count = 1_234;
    assert!(report(&hit, "x").contains("(1234 downloads)"));
}
