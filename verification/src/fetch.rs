//! Fetching a subtitle, one request at a time: search, take the most-downloaded hit, log in, ask
//! for its link, and fetch its text.
//!
//! Each step is a state of its own. It takes what the last request gave and gives the next
//! request to send, so that no request can be made before its time.
use vstd::prelude::*;

use crate::chars;
use crate::chars::push_decimal;
use crate::opensubtitles;
use crate::opensubtitles::{
    most_downloaded, parse_download, parse_search, Client, ClientView, DownloadResponse, Request,
    SearchDatum, SearchQuery, Subtitle, SubtitleView,
};

verus! {

/// The search has been asked for.
pub struct Searching {
    client: Client,
}

/// The login has been asked for, to download the hit.
pub struct LoggingIn {
    client: Client,
    hit: Subtitle,
}

/// The link to the text of the hit has been asked for.
pub struct Asking {
    client: Client,
    hit: Subtitle,
}

impl View for Searching {
    type V = ClientView;

    closed spec fn view(&self) -> ClientView {
        self.client@
    }
}

impl View for LoggingIn {
    type V = (ClientView, SubtitleView);

    closed spec fn view(&self) -> (ClientView, SubtitleView) {
        (self.client@, self.hit@)
    }
}

impl View for Asking {
    type V = (ClientView, SubtitleView);

    closed spec fn view(&self) -> (ClientView, SubtitleView) {
        (self.client@, self.hit@)
    }
}

impl Searching {
    /// Start with a search.
    pub fn start(client: Client, query: &SearchQuery) -> (r: (Searching, Request))
        ensures
            r.0@ == client@,
            r.1@ == client@.search_request(*query),
    {
        let request = client.search(query);
        (Searching { client }, request)
    }

    /// The search gave these results: log in to download the most-downloaded one that has a
    /// file, if there is one.
    pub fn found(self, data: &[SearchDatum], username: &str, password: &str) -> (r: Result<
        (LoggingIn, Request),
        String,
    >)
        ensures
            match r {
                Ok((next, request)) => exists|k: int| #[trigger]
                    opensubtitles::is_most_downloaded(opensubtitles::hits(data@), k) && next@ == (
                        self@,
                        opensubtitles::hits(data@)[k],
                    ) && request@ == self@.login_request(username@, password@),
                Err(e) => opensubtitles::hits(data@).len() == 0 && e@
                    == "no subtitles found for that search"@,
            },
    {
        let mut hits = parse_search(data);
        let ghost views = opensubtitles::hit_views(hits@);
        match most_downloaded(hits.as_slice()) {
            None => Err("no subtitles found for that search".to_owned()),
            Some(k) => {
                assert(views[k as int] == hits@[k as int]@);
                let hit = hits.swap_remove(k);
                let request = self.client.login(username, password);
                Ok((LoggingIn { client: self.client, hit }, request))
            },
        }
    }
}

impl LoggingIn {
    /// The login gave this token: ask for the link to the text of the hit.
    pub fn logged_in(self, token: &str) -> (r: (Asking, Request))
        ensures
            r.0@ == (self@.0.logged_in(token@), self@.1),
            r.1@ == self@.0.logged_in(token@).download_request(self@.1.file_id),
    {
        let mut client = self.client;
        client.keep_token(token);
        let request = client.ask_for(self.hit.file_id);
        (Asking { client, hit: self.hit }, request)
    }
}

impl Asking {
    /// The link came: fetch the text, which is that of the hit.
    pub fn linked(self, response: DownloadResponse) -> (r: (Subtitle, Request))
        ensures
            r.0@ == self@.1,
            r.1@ == self@.0.fetch_request(response.link@),
    {
        let link = parse_download(response);
        let request = self.client.fetch(link.as_str());
        (self.hit, request)
    }
}

/// Whether a file of this name may be written: not if there is one, which a name that came from
/// the server must not overwrite.
pub fn check_free(name: &str, exists: bool) -> (r: Result<(), String>)
    ensures
        match r {
            Ok(_) => !exists,
            Err(e) => exists && e@ == "refusing to overwrite existing file "@ + name@
                + "; pass --output to choose where to save"@,
        },
{
    if exists {
        let mut e = "refusing to overwrite existing file ".to_owned();
        e.append(name);
        e.append("; pass --output to choose where to save");
        Err(e)
    } else {
        Ok(())
    }
}

/// A signed number in decimal.
pub open spec fn signed_decimal(n: int) -> Seq<char> {
    if n < 0 {
        seq!['-'] + chars::decimal((-n) as nat)
    } else {
        chars::decimal(n as nat)
    }
}

/// What is said of a download.
pub fn report(hit: &Subtitle, path: &str) -> (r: String)
    ensures
        r@ == "Downloaded a "@ + hit@.language + " subtitle ("@ + signed_decimal(
            hit@.download_count,
        ) + " downloads) -> "@ + path@,
{
    let mut r = "Downloaded a ".to_owned();
    r.append(hit.language.as_str());
    r.append(" subtitle (");
    let ghost before = r@;
    if hit.download_count < 0 {
        r.push('-');
        push_decimal(&mut r, (-(hit.download_count as i128)) as u64);
    } else {
        push_decimal(&mut r, hit.download_count as u64);
    }
    assert(r@ =~= before + signed_decimal(hit@.download_count));
    r.append(" downloads) -> ");
    r.append(path);
    r
}

/// The whole way: the file that is asked for is that of the hit that is taken, the request for
/// it carries the token that the login gave, and the link is fetched with neither the key nor
/// the token.
pub proof fn law_download_follows_login(
    client: ClientView,
    hit: SubtitleView,
    token: Seq<char>,
    link: Seq<char>,
)
    ensures
        ({
            let after = client.logged_in(token);
            let download = after.download_request(hit.file_id);
            let fetch = after.fetch_request(link);
            &&& download.body == (opensubtitles::BodyView::Download { file_id: hit.file_id })
            &&& download.headers.contains(("Authorization"@, "Bearer "@ + token))
            &&& forall|i: int|
                0 <= i < fetch.headers.len() ==> (#[trigger] fetch.headers[i]).0 == "User-Agent"@
        }),
{
    let after = client.logged_in(token);
    assert(after.headers()[3] == ("Authorization"@, "Bearer "@ + token));
}

/// A number below zero is written with a minus and the digits of its size, any other with its
/// digits alone.
pub proof fn law_signed_numbers(n: nat)
    ensures
        signed_decimal(n as int) == chars::decimal(n),
        n > 0 ==> signed_decimal(-n) == seq!['-'] + chars::decimal(n),
{
}

} // verus!
