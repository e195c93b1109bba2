//! A minimal client for the OpenSubtitles REST API
//! (`https://api.opensubtitles.com/api/v1`).
//!
//! The client shapes requests and makes sense of replies; it sends nothing itself. Supply
//! your own API key and a descriptive `User-Agent`: both are required by OpenSubtitles. Search
//! needs only the API key; downloads also need a login token (and count against your daily
//! quota).
use vstd::prelude::*;
use vstd::slice::slice_subrange;

use crate::chars;
use crate::chars::{labelled, push_chars, push_decimal, to_chars};

verus! {

/// Where the service is.
pub const BASE: &'static str = "https://api.opensubtitles.com/api/v1";

// ---------------------------------------------------------------------------
// Errors
// ---------------------------------------------------------------------------

/// An error from the OpenSubtitles client.
#[derive(Clone, Debug, PartialEq, Eq)]
pub enum Error {
    /// Transport / IO failure.
    Http(String),
    /// The API returned a non-success status.
    Api { status: u16, body: String },
    /// A response could not be parsed.
    Parse(String),
    /// A download was attempted before [`Client::login`].
    NotLoggedIn,
}

/// An error as mathematical values.
pub enum ErrorView {
    Http(Seq<char>),
    Api { status: int, body: Seq<char> },
    Parse(Seq<char>),
    NotLoggedIn,
}

impl View for Error {
    type V = ErrorView;

    open spec fn view(&self) -> ErrorView {
        match self {
            Error::Http(e) => ErrorView::Http(e@),
            Error::Api { status, body } => ErrorView::Api { status: *status as int, body: body@ },
            Error::Parse(e) => ErrorView::Parse(e@),
            Error::NotLoggedIn => ErrorView::NotLoggedIn,
        }
    }
}

/// The first 500 characters of `s`, or all of it.
pub open spec fn snippet(s: Seq<char>) -> Seq<char> {
    if s.len() <= 500 {
        s
    } else {
        s.take(500)
    }
}

/// What is said of an error.
pub open spec fn message(e: ErrorView) -> Seq<char> {
    match e {
        ErrorView::Http(s) => "HTTP error: "@ + s,
        ErrorView::Api { status, body } => "OpenSubtitles API error "@ + chars::decimal(
            status as nat,
        ) + ": "@ + snippet(body),
        ErrorView::Parse(s) => "failed to parse response: "@ + s,
        ErrorView::NotLoggedIn => "login is required before downloading"@,
    }
}

impl Error {
    /// What is said of the error.
    pub fn message(&self) -> (r: String)
        ensures
            r@ == message(self@),
    {
        match self {
            Error::Http(e) => labelled("HTTP error: ", e.as_str()),
            Error::Api { status, body } => {
                let mut r = "OpenSubtitles API error ".to_owned();
                push_decimal(&mut r, *status as u64);
                r.append(": ");
                let all = to_chars(body.as_str());
                let part = if all.len() <= 500 {
                    all.as_slice()
                } else {
                    slice_subrange(all.as_slice(), 0, 500)
                };
                assert(part@ =~= snippet(body@));
                push_chars(&mut r, part);
                r
            },
            Error::Parse(e) => labelled("failed to parse response: ", e.as_str()),
            Error::NotLoggedIn => "login is required before downloading".to_owned(),
        }
    }
}

// ---------------------------------------------------------------------------
// Searching
// ---------------------------------------------------------------------------

/// Search parameters; combine any of these.
#[derive(Debug, Clone, PartialEq, Eq)]
pub struct SearchQuery {
    /// Free-text query (movie / episode title).
    pub query: Option<String>,
    /// Comma-separated language codes, e.g. `"en"` or `"en,fr"`.
    pub languages: Option<String>,
    /// OpenSubtitles moviehash of the media file.
    pub moviehash: Option<String>,
    /// IMDb id (without the `tt` prefix).
    pub imdb_id: Option<String>,
}

impl Default for SearchQuery {
    fn default() -> (r: Self)
        ensures
            r.query is None,
            r.languages is None,
            r.moviehash is None,
            r.imdb_id is None,
    {
        SearchQuery { query: None, languages: None, moviehash: None, imdb_id: None }
    }
}

/// A parameter with its value, if it is set.
pub open spec fn param(key: Seq<char>, value: Option<String>) -> Seq<(Seq<char>, Seq<char>)> {
    match value {
        Some(v) => seq![(key, v@)],
        None => seq![],
    }
}

/// Keys and values as mathematical values.
pub open spec fn pairs(v: Seq<(&'static str, String)>) -> Seq<(Seq<char>, Seq<char>)> {
    Seq::new(v.len(), |i: int| (v[i].0@, v[i].1@))
}

impl SearchQuery {
    /// The query parameters that are set, in a stable order.
    pub open spec fn set_params(self) -> Seq<(Seq<char>, Seq<char>)> {
        param("query"@, self.query) + param("languages"@, self.languages) + param(
            "moviehash"@,
            self.moviehash,
        ) + param("imdb_id"@, self.imdb_id)
    }

    /// The query parameters to send, in a stable order (only set fields).
    pub fn params(&self) -> (r: Vec<(&'static str, String)>)
        ensures
            pairs(r@) == self.set_params(),
    {
        let mut params: Vec<(&'static str, String)> = Vec::new();
        push_param(&mut params, "query", &self.query);
        push_param(&mut params, "languages", &self.languages);
        push_param(&mut params, "moviehash", &self.moviehash);
        push_param(&mut params, "imdb_id", &self.imdb_id);
        assert(pairs(params@) =~= self.set_params());
        params
    }
}

/// Append a parameter with its value, if it is set.
fn push_param(params: &mut Vec<(&'static str, String)>, key: &'static str, value: &Option<String>)
    ensures
        pairs(final(params)@) == pairs(old(params)@) + param(key@, *value),
{
    let ghost before = params@;
    if let Some(v) = value {
        params.push((key, v.clone()));
    }
    assert(pairs(params@) =~= pairs(before) + param(key@, *value));
}

/// One search hit, flattened to the fields a caller needs.
#[derive(Debug, Clone, PartialEq, Eq)]
pub struct Subtitle {
    pub file_id: i64,
    pub file_name: String,
    pub language: String,
    pub release: String,
    pub download_count: i64,
}

/// A search hit as mathematical values.
#[verifier::ext_equal]
pub struct SubtitleView {
    pub file_id: int,
    pub file_name: Seq<char>,
    pub language: Seq<char>,
    pub release: Seq<char>,
    pub download_count: int,
}

impl View for Subtitle {
    type V = SubtitleView;

    open spec fn view(&self) -> SubtitleView {
        SubtitleView {
            file_id: self.file_id as int,
            file_name: self.file_name@,
            language: self.language@,
            release: self.release@,
            download_count: self.download_count as int,
        }
    }
}

/// A file that a search result offers.
#[derive(Debug, Clone, PartialEq, Eq)]
pub struct FileRef {
    pub file_id: i64,
    pub file_name: String,
}

/// What a search result says of a subtitle.
#[derive(Debug, Clone, PartialEq, Eq)]
pub struct Attributes {
    pub language: Option<String>,
    pub download_count: i64,
    pub release: String,
    pub files: Vec<FileRef>,
}

/// One search result.
#[derive(Debug, Clone, PartialEq, Eq)]
pub struct SearchDatum {
    pub attributes: Attributes,
}

/// The hit that a search result stands for: its first file, if it has one; a language that is
/// not given is empty.
pub open spec fn hit(datum: SearchDatum) -> Option<SubtitleView> {
    let a = datum.attributes;
    if a.files@.len() == 0 {
        None
    } else {
        Some(
            SubtitleView {
                file_id: a.files@[0].file_id as int,
                file_name: a.files@[0].file_name@,
                language: match a.language {
                    Some(l) => l@,
                    None => seq![],
                },
                release: a.release@,
                download_count: a.download_count as int,
            },
        )
    }
}

/// The hits of the results that have one, in order.
pub open spec fn hits(data: Seq<SearchDatum>) -> Seq<SubtitleView>
    decreases data.len(),
{
    if data.len() == 0 {
        seq![]
    } else {
        let before = hits(data.drop_last());
        match hit(data.last()) {
            Some(h) => before.push(h),
            None => before,
        }
    }
}

/// The views of a sequence of hits.
pub open spec fn hit_views(v: Seq<Subtitle>) -> Seq<SubtitleView> {
    Seq::new(v.len(), |i: int| v[i]@)
}

/// The hit that a search result stands for, if it has a downloadable file.
pub fn into_subtitle(datum: &SearchDatum) -> (r: Option<Subtitle>)
    ensures
        match r {
            Some(s) => hit(*datum) == Some(s@),
            None => hit(*datum) is None,
        },
{
    let a = &datum.attributes;
    if a.files.len() == 0 {
        return None;
    }
    let language = match &a.language {
        Some(l) => l.clone(),
        None => String::new(),
    };
    let r = Subtitle {
        file_id: a.files[0].file_id,
        file_name: a.files[0].file_name.clone(),
        language,
        release: a.release.clone(),
        download_count: a.download_count,
    };
    assert(r@ =~= hit(*datum)->0);
    Some(r)
}

/// The hits of a search response. Results without a downloadable file are skipped.
pub fn parse_search(data: &[SearchDatum]) -> (r: Vec<Subtitle>)
    ensures
        hit_views(r@) == hits(data@),
{
    let mut out: Vec<Subtitle> = Vec::new();
    let mut i: usize = 0;
    assert(data@.take(0) =~= seq![]);
    assert(hit_views(out@) =~= seq![]);
    while i < data.len()
        invariant
            i <= data@.len(),
            hit_views(out@) == hits(data@.take(i as int)),
        decreases data.len() - i,
    {
        let ghost before = out@;
        let ghost next = data@.take(i + 1);
        proof {
            assert(next.drop_last() =~= data@.take(i as int));
            assert(next.last() == data@[i as int]);
        }
        if let Some(s) = into_subtitle(&data[i]) {
            let ghost view = s@;
            out.push(s);
            assert(hit_views(out@) =~= hit_views(before).push(view));
        }
        i += 1;
    }
    assert(data@.take(data@.len() as int) =~= data@);
    out
}

/// Whether the hit at `k` is the most-downloaded one. Ties fall back to the service's own ordering:
/// of several, it is the one that is listed first.
pub open spec fn is_most_downloaded(hits: Seq<SubtitleView>, k: int) -> bool {
    0 <= k < hits.len() && forall|i: int|
        0 <= i < hits.len() ==> (#[trigger] hits[i]).download_count < hits[k].download_count || (
        hits[i].download_count == hits[k].download_count && k <= i)
}

/// The most-downloaded hit; ties fall back to the service's own ordering, so of several it is the
/// one that is listed first.
pub fn most_downloaded(hits: &[Subtitle]) -> (r: Option<usize>)
    ensures
        match r {
            None => hits@.len() == 0,
            Some(k) => is_most_downloaded(hit_views(hits@), k as int),
        },
{
    if hits.len() == 0 {
        return None;
    }
    let mut k: usize = 0;
    let mut i: usize = 1;
    while i < hits.len()
        invariant
            1 <= i <= hits@.len(),
            k < i,
            forall|j: int|
                0 <= j < i ==> (#[trigger] hits@[j]).download_count
                    < hits@[k as int].download_count || (hits@[j].download_count
                    == hits@[k as int].download_count && k <= j),
        decreases hits.len() - i,
    {
        if hits[i].download_count > hits[k].download_count {
            k = i;
        }
        i += 1;
    }
    proof {
        let views = hit_views(hits@);
        assert forall|j: int| 0 <= j < views.len() implies (#[trigger] views[j]).download_count
            < views[k as int].download_count || (views[j].download_count
            == views[k as int].download_count && k <= j) by {
            assert(views[j] == hits@[j]@);
        }
    }
    Some(k)
}

/// What a download response says.
#[derive(Debug, Clone, PartialEq, Eq)]
pub struct DownloadResponse {
    pub link: String,
}

/// The link that a download response gives.
pub fn parse_download(response: DownloadResponse) -> (r: String)
    ensures
        r@ == response.link@,
{
    response.link
}

// ---------------------------------------------------------------------------
// Requests and replies
// ---------------------------------------------------------------------------

/// How a request is made.
#[derive(Clone, Copy, Debug, PartialEq, Eq, Structural)]
pub enum Method {
    Get,
    Post,
}

/// What a request sends in its body, as a JSON object with these fields.
#[derive(Clone, Debug, PartialEq, Eq)]
pub enum Body {
    /// Nothing.
    Nothing,
    /// `username` and `password`.
    Login { username: String, password: String },
    /// `file_id`.
    Download { file_id: i64 },
}

/// A request to be sent.
#[derive(Clone, Debug, PartialEq, Eq)]
pub struct Request {
    pub method: Method,
    pub url: String,
    /// The header fields to set, in order.
    pub headers: Vec<(&'static str, String)>,
    /// The query parameters to add, in order.
    pub query: Vec<(&'static str, String)>,
    pub body: Body,
}

/// What a body holds, as mathematical values.
pub enum BodyView {
    Nothing,
    Login { username: Seq<char>, password: Seq<char> },
    Download { file_id: int },
}

/// A request as mathematical values.
#[verifier::ext_equal]
pub struct RequestView {
    pub method: Method,
    pub url: Seq<char>,
    pub headers: Seq<(Seq<char>, Seq<char>)>,
    pub query: Seq<(Seq<char>, Seq<char>)>,
    pub body: BodyView,
}

impl View for Body {
    type V = BodyView;

    open spec fn view(&self) -> BodyView {
        match self {
            Body::Nothing => BodyView::Nothing,
            Body::Login { username, password } => BodyView::Login {
                username: username@,
                password: password@,
            },
            Body::Download { file_id } => BodyView::Download { file_id: *file_id as int },
        }
    }
}

impl View for Request {
    type V = RequestView;

    open spec fn view(&self) -> RequestView {
        RequestView {
            method: self.method,
            url: self.url@,
            headers: pairs(self.headers@),
            query: pairs(self.query@),
            body: self.body@,
        }
    }
}

/// A client for the OpenSubtitles REST API. It never shows its key or its token when it is
/// printed, since it cannot be.
pub struct Client {
    api_key: String,
    user_agent: String,
    token: Option<String>,
}

/// What a client holds, as mathematical values.
#[verifier::ext_equal]
pub struct ClientView {
    pub api_key: Seq<char>,
    pub user_agent: Seq<char>,
    pub token: Option<Seq<char>>,
}

impl View for Client {
    type V = ClientView;

    closed spec fn view(&self) -> ClientView {
        ClientView {
            api_key: self.api_key@,
            user_agent: self.user_agent@,
            token: match self.token {
                Some(t) => Some(t@),
                None => None,
            },
        }
    }
}

impl ClientView {
    /// The header fields of a request to the service.
    pub open spec fn headers(self) -> Seq<(Seq<char>, Seq<char>)> {
        seq![
            ("Api-Key"@, self.api_key),
            ("User-Agent"@, self.user_agent),
            ("Accept"@, "application/json"@),
        ] + match self.token {
            Some(t) => seq![("Authorization"@, "Bearer "@ + t)],
            None => seq![],
        }
    }

    /// The request that logs in.
    pub open spec fn login_request(self, username: Seq<char>, password: Seq<char>) -> RequestView {
        RequestView {
            method: Method::Post,
            url: BASE@ + "/login"@,
            headers: self.headers(),
            query: seq![],
            body: BodyView::Login { username, password },
        }
    }

    /// The request that searches for subtitles.
    pub open spec fn search_request(self, query: SearchQuery) -> RequestView {
        RequestView {
            method: Method::Get,
            url: BASE@ + "/subtitles"@,
            headers: self.headers(),
            query: query.set_params(),
            body: BodyView::Nothing,
        }
    }

    /// The request that asks for the link to a subtitle's text.
    pub open spec fn download_request(self, file_id: int) -> RequestView {
        RequestView {
            method: Method::Post,
            url: BASE@ + "/download"@,
            headers: self.headers(),
            query: seq![],
            body: BodyView::Download { file_id },
        }
    }

    /// The request that fetches a subtitle's text by its link.
    pub open spec fn fetch_request(self, link: Seq<char>) -> RequestView {
        RequestView {
            method: Method::Get,
            url: link,
            headers: seq![("User-Agent"@, self.user_agent)],
            query: seq![],
            body: BodyView::Nothing,
        }
    }

    /// The client once it keeps the token.
    pub open spec fn logged_in(self, token: Seq<char>) -> ClientView {
        ClientView { token: Some(token), ..self }
    }
}

impl Client {
    /// Create a client. `user_agent` must identify your app (required by the API).
    pub fn new(api_key: &str, user_agent: &str) -> (r: Self)
        ensures
            r@ == (ClientView { api_key: api_key@, user_agent: user_agent@, token: None }),
    {
        Client { api_key: api_key.to_owned(), user_agent: user_agent.to_owned(), token: None }
    }

    /// The request that logs in to obtain a token (required for downloads; raises the quota).
    pub fn login(&self, username: &str, password: &str) -> (r: Request)
        ensures
            r@ == self@.login_request(username@, password@),
    {
        let r = Request {
            method: Method::Post,
            url: labelled(BASE, "/login"),
            headers: self.with_headers(),
            query: Vec::new(),
            body: Body::Login { username: username.to_owned(), password: password.to_owned() },
        };
        assert(pairs(r.query@) =~= seq![]);
        r
    }

    /// Keep the token that the reply to a login gave.
    pub fn keep_token(&mut self, token: &str)
        ensures
            final(self)@ == old(self)@.logged_in(token@),
    {
        self.token = Some(token.to_owned());
    }

    /// The request that searches for subtitles.
    pub fn search(&self, query: &SearchQuery) -> (r: Request)
        ensures
            r@ == self@.search_request(*query),
    {
        Request {
            method: Method::Get,
            url: labelled(BASE, "/subtitles"),
            headers: self.with_headers(),
            query: query.params(),
            body: Body::Nothing,
        }
    }

    /// The request that asks for the link to a subtitle's text by its `file_id`. Requires a
    /// prior [`Client::login`].
    pub fn download(&self, file_id: i64) -> (r: Result<Request, Error>)
        ensures
            match r {
                Ok(request) => self@.token is Some && request@ == self@.download_request(
                    file_id as int,
                ),
                Err(e) => self@.token is None && e@ == ErrorView::NotLoggedIn,
            },
    {
        if self.token.is_none() {
            return Err(Error::NotLoggedIn);
        }
        Ok(self.ask_for(file_id))
    }

    /// The request that asks for the link to a subtitle's text.
    pub(crate) fn ask_for(&self, file_id: i64) -> (r: Request)
        ensures
            r@ == self@.download_request(file_id as int),
    {
        let r = Request {
            method: Method::Post,
            url: labelled(BASE, "/download"),
            headers: self.with_headers(),
            query: Vec::new(),
            body: Body::Download { file_id },
        };
        assert(pairs(r.query@) =~= seq![]);
        r
    }

    /// The request that fetches a subtitle's text by its link. The link is not the service's
    /// own, so neither the key nor the token goes with it.
    pub fn fetch(&self, link: &str) -> (r: Request)
        ensures
            r@ == self@.fetch_request(link@),
    {
        let mut headers: Vec<(&'static str, String)> = Vec::new();
        headers.push(("User-Agent", self.user_agent.clone()));
        let r = Request {
            method: Method::Get,
            url: link.to_owned(),
            headers,
            query: Vec::new(),
            body: Body::Nothing,
        };
        assert(pairs(r.query@) =~= seq![]);
        assert(pairs(r.headers@) =~= seq![("User-Agent"@, self@.user_agent)]);
        r
    }

    /// The header fields of a request to the service.
    fn with_headers(&self) -> (r: Vec<(&'static str, String)>)
        ensures
            pairs(r@) == self@.headers(),
    {
        let mut headers: Vec<(&'static str, String)> = Vec::new();
        headers.push(("Api-Key", self.api_key.clone()));
        headers.push(("User-Agent", self.user_agent.clone()));
        headers.push(("Accept", "application/json".to_owned()));
        if let Some(token) = &self.token {
            headers.push(("Authorization", labelled("Bearer ", token.as_str())));
        }
        assert(pairs(headers@) =~= self@.headers());
        headers
    }
}

/// What came back of a request: a reply with its text, or what went wrong while it was read; the
/// same of a reply with a status that is no success; or what went wrong before any reply.
#[derive(Debug)]
pub enum Reply {
    Success(Result<String, String>),
    Status(u16, Result<String, String>),
    Failure(String),
}

/// The text of a reply, or the classified error.
pub open spec fn outcome(reply: Reply) -> Result<Seq<char>, ErrorView> {
    match reply {
        Reply::Success(Ok(body)) => Ok(body@),
        Reply::Success(Err(e)) => Err(ErrorView::Http(e@)),
        Reply::Status(status, Ok(body)) => Err(
            ErrorView::Api { status: status as int, body: body@ },
        ),
        Reply::Status(status, Err(e)) => Err(
            ErrorView::Api {
                status: status as int,
                body: "<error body unavailable: "@ + e@ + ">"@,
            },
        ),
        Reply::Failure(e) => Err(ErrorView::Http(e@)),
    }
}

/// Turn a reply into a body string or a classified [`Error`].
pub fn handle(reply: Reply) -> (r: Result<String, Error>)
    ensures
        match r {
            Ok(body) => outcome(reply) == Ok::<Seq<char>, ErrorView>(body@),
            Err(e) => outcome(reply) == Err::<Seq<char>, ErrorView>(e@),
        },
{
    match reply {
        Reply::Success(Ok(body)) => Ok(body),
        Reply::Success(Err(e)) => Err(Error::Http(e)),
        Reply::Status(status, Ok(body)) => Err(Error::Api { status, body }),
        Reply::Status(status, Err(e)) => {
            let mut body = labelled("<error body unavailable: ", e.as_str());
            body.append(">");
            Err(Error::Api { status, body })
        },
        Reply::Failure(e) => Err(Error::Http(e)),
    }
}

// ---------------------------------------------------------------------------
// Laws
// ---------------------------------------------------------------------------

/// Search needs only the key: before a login no request to the service carries a token, and
/// after one every request does.
pub proof fn law_token_goes_with_every_request_after_login(client: ClientView, token: Seq<char>)
    ensures
        client.token is None ==> client.headers().len() == 3,
        ({
            let after = client.logged_in(token);
            after.headers().last() == ("Authorization"@, "Bearer "@ + token)
        }),
{
}

/// The hits are the results with a file, in their order, each as the hit that it stands for.
pub proof fn law_hits_are_the_results_with_files(data: Seq<SearchDatum>)
    ensures
        hits(data) == data.filter(|d: SearchDatum| d.attributes.files@.len() > 0).map_values(
            |d: SearchDatum| hit(d)->0,
        ),
    decreases data.len(),
{
    reveal(Seq::filter);
    let has_file = |d: SearchDatum| d.attributes.files@.len() > 0;
    let view = |d: SearchDatum| hit(d)->0;
    if data.len() > 0 {
        let before = data.drop_last();
        law_hits_are_the_results_with_files(before);
        if has_file(data.last()) {
            assert(before.filter(has_file).push(data.last()).map_values(view) =~= before.filter(
                has_file,
            ).map_values(view).push(view(data.last())));
        }
    }
    assert(hits(data) =~= data.filter(has_file).map_values(view));
}

/// How many of the fields are set.
pub open spec fn set_count(q: SearchQuery) -> int {
    (if q.query is Some {
        1int
    } else {
        0
    }) + (if q.languages is Some {
        1int
    } else {
        0
    }) + (if q.moviehash is Some {
        1int
    } else {
        0
    }) + (if q.imdb_id is Some {
        1int
    } else {
        0
    })
}

/// A search sends each field that is set under its own name with its own value, and no other.
pub proof fn law_search_sends_what_is_set(client: ClientView, q: SearchQuery)
    ensures
        client.search_request(q).query.len() == set_count(q),
        q.query is Some ==> client.search_request(q).query.contains(("query"@, q.query->0@)),
        q.languages is Some ==> client.search_request(q).query.contains(
            ("languages"@, q.languages->0@),
        ),
        q.moviehash is Some ==> client.search_request(q).query.contains(
            ("moviehash"@, q.moviehash->0@),
        ),
        q.imdb_id is Some ==> client.search_request(q).query.contains(("imdb_id"@, q.imdb_id->0@)),
{
    let all = q.set_params();
    let a = param("query"@, q.query);
    let b = param("languages"@, q.languages);
    let c = param("moviehash"@, q.moviehash);
    let d = param("imdb_id"@, q.imdb_id);
    if q.query is Some {
        assert(all[0] == a[0]);
    }
    if q.languages is Some {
        assert(all[a.len() as int] == b[0]);
    }
    if q.moviehash is Some {
        assert(all[(a.len() + b.len()) as int] == c[0]);
    }
    if q.imdb_id is Some {
        assert(all[(a.len() + b.len() + c.len()) as int] == d[0]);
    }
}

/// Each request goes where the service expects it, in the way it expects it, and says what it is
/// asked to say; every one to the service names the key and the agent.
pub proof fn law_requests_go_where_they_belong(
    client: ClientView,
    q: SearchQuery,
    username: Seq<char>,
    password: Seq<char>,
    file_id: int,
    link: Seq<char>,
)
    ensures
        ({
            let login = client.login_request(username, password);
            let search = client.search_request(q);
            let download = client.download_request(file_id);
            let fetch = client.fetch_request(link);
            &&& login.method == Method::Post
            &&& login.url == "https://api.opensubtitles.com/api/v1"@ + "/login"@
            &&& login.body == (BodyView::Login { username, password })
            &&& login.query.len() == 0
            &&& search.method == Method::Get
            &&& search.url == "https://api.opensubtitles.com/api/v1"@ + "/subtitles"@
            &&& search.body == BodyView::Nothing
            &&& download.method == Method::Post
            &&& download.url == "https://api.opensubtitles.com/api/v1"@ + "/download"@
            &&& download.body == (BodyView::Download { file_id })
            &&& download.query.len() == 0
            &&& fetch.method == Method::Get
            &&& fetch.url == link
            &&& fetch.body == BodyView::Nothing
            &&& fetch.query.len() == 0
            &&& fetch.headers == seq![("User-Agent"@, client.user_agent)]
            &&& login.headers == search.headers
            &&& download.headers == search.headers
            &&& search.headers.contains(("Api-Key"@, client.api_key))
            &&& search.headers.contains(("User-Agent"@, client.user_agent))
            &&& search.headers.contains(("Accept"@, "application/json"@))
            &&& search.headers.len() == if client.token is Some {
                4int
            } else {
                3
            }
        }),
{
    let hs = client.headers();
    assert(hs[0] == ("Api-Key"@, client.api_key));
    assert(hs[1] == ("User-Agent"@, client.user_agent));
    assert(hs[2] == ("Accept"@, "application/json"@));
}

/// A search result stands for its first file, with the language, the release and the number of
/// downloads that it gives; one without a file stands for nothing. One more result is one more hit
/// at the end.
pub proof fn law_one_more_result_is_one_more_hit(data: Seq<SearchDatum>, d: SearchDatum)
    ensures
        d.attributes.files@.len() == 0 ==> hits(data.push(d)) == hits(data),
        d.attributes.files@.len() > 0 ==> ({
            let all = hits(data.push(d));
            let h = all.last();
            &&& all.drop_last() == hits(data)
            &&& all.len() == hits(data).len() + 1
            &&& h.file_id == d.attributes.files@[0].file_id
            &&& h.file_name == d.attributes.files@[0].file_name@
            &&& h.release == d.attributes.release@
            &&& h.download_count == d.attributes.download_count
            &&& d.attributes.language is Some ==> h.language == d.attributes.language->0@
            &&& d.attributes.language is None ==> h.language.len() == 0
        }),
        hits(seq![]).len() == 0,
{
    let all = data.push(d);
    assert(all.drop_last() =~= data);
    assert(all.last() == d);
    if d.attributes.files@.len() > 0 {
        assert(hits(all).drop_last() =~= hits(data));
    }
}

/// The hit that is taken is downloaded no less than any other, and more than any that is listed
/// before it; there is one wherever there is a hit.
pub proof fn law_most_downloaded_is_first_of_the_most(hits: Seq<SubtitleView>, k: int, i: int)
    requires
        is_most_downloaded(hits, k),
        0 <= i < hits.len(),
    ensures
        0 <= k < hits.len(),
        hits[k].download_count >= hits[i].download_count,
        i < k ==> hits[k].download_count > hits[i].download_count,
{
}

/// A reply is taken as it is where it is a success that could be read; of any other the status and
/// the text are kept, or what went wrong.
pub proof fn law_replies_are_told_apart(status: u16, body: String, e: String)
    ensures
        outcome(Reply::Success(Ok(body))) == Ok::<Seq<char>, ErrorView>(body@),
        outcome(Reply::Success(Err(e))) == Err::<Seq<char>, ErrorView>(ErrorView::Http(e@)),
        outcome(Reply::Failure(e)) == Err::<Seq<char>, ErrorView>(ErrorView::Http(e@)),
        outcome(Reply::Status(status, Ok(body))) == Err::<Seq<char>, ErrorView>(
            ErrorView::Api { status: status as int, body: body@ },
        ),
        outcome(Reply::Status(status, Err(e))) matches Err(ErrorView::Api { status: s, body: b })
            && s == status && b == "<error body unavailable: "@ + e@ + ">"@,
{
}

/// What is said of a refusal quotes its text, but no more than its first 500 characters.
pub proof fn law_messages_are_short(status: nat, a: Seq<char>, b: Seq<char>)
    ensures
        a.len() <= 500 ==> message(ErrorView::Api { status: status as int, body: a })
            == "OpenSubtitles API error "@ + chars::decimal(status) + ": "@ + a,
        a.len() == 500 ==> message(ErrorView::Api { status: status as int, body: a + b }) == message(
            ErrorView::Api { status: status as int, body: a },
        ),
        message(ErrorView::Http(a)) == "HTTP error: "@ + a,
        message(ErrorView::Parse(a)) == "failed to parse response: "@ + a,
        message(ErrorView::NotLoggedIn) == "login is required before downloading"@,
{
    if a.len() == 500 {
        assert(snippet(a + b) =~= a);
    }
}

} // verus!
