//! Listing the files of a Google Drive folder through the Drive v3 API.
//!
//! The network exchange itself is asynchronous and stays with the caller;
//! this module builds the HTTP client, decides what each page request asks
//! for, and gathers the pages' files.

use vstd::prelude::*;
use vstd::string::StringExecFns;
use reqwest::redirect::Policy;
use reqwest::{Client, ClientBuilder};

verus! {

#[verifier::external_type_specification]
#[verifier::external_body]
pub struct ExClient(Client);

#[verifier::external_type_specification]
#[verifier::external_body]
pub struct ExClientBuilder(ClientBuilder);

#[verifier::external_type_specification]
#[verifier::external_body]
pub struct ExPolicy(Policy);

#[verifier::external_type_specification]
#[verifier::external_body]
pub struct ExReqwestError(reqwest::Error);

/// A client builder, with the redirect limit that was set on it explicitly
/// (`None` while it keeps reqwest's default policy).
pub struct DriveClientBuilder {
    builder: ClientBuilder,
    redirect_limit: Option<usize>,
}

/// A redirect policy, with the most redirects it follows in a chain.
pub struct RedirectPolicy {
    policy: Policy,
    limit: usize,
}

/// A built HTTP client, with the redirect limit that its builder carried.
pub struct BuiltClient {
    http: Client,
    redirect_limit: Option<usize>,
}

/// `reqwest::Client::builder`: a builder with the default configuration, on
/// which no redirect policy has been set yet.
#[verifier::external_body]
fn client_builder() -> (b: DriveClientBuilder)
    ensures
        b.redirect_limit is None,
{
    DriveClientBuilder { builder: Client::builder(), redirect_limit: None }
}

/// `reqwest::redirect::Policy::limited`: a policy that follows at most `max`
/// redirects in a chain and fails on the next one.
#[verifier::external_body]
fn limited_redirects(max: usize) -> (p: RedirectPolicy)
    ensures
        p.limit == max,
{
    RedirectPolicy { policy: Policy::limited(max), limit: max }
}

/// `ClientBuilder::redirect`: the builder with `policy` as its redirect policy.
#[verifier::external_body]
fn with_redirect_policy(builder: DriveClientBuilder, policy: RedirectPolicy) -> (b: DriveClientBuilder)
    ensures
        b.redirect_limit == Some(policy.limit),
{
    DriveClientBuilder { builder: builder.builder.redirect(policy.policy), redirect_limit: Some(policy.limit) }
}

/// `ClientBuilder::build`: the client, which follows the redirect policy of
/// its builder, or the error that the TLS backend or the resolver
/// configuration gave. Whether the build succeeds is not claimed: it depends
/// on the machine.
#[verifier::external_body]
fn build_client(builder: DriveClientBuilder) -> (r: Result<BuiltClient, reqwest::Error>)
    ensures
        r matches Ok(c) ==> c.redirect_limit == builder.redirect_limit,
{
    match builder.builder.build() {
        Ok(http) => Ok(BuiltClient { http, redirect_limit: builder.redirect_limit }),
        Err(e) => Err(e),
    }
}

/// How many redirects a Drive request follows.
pub const MAX_REDIRECTS: usize = 10;

/// The endpoint that lists files.
pub const FILES_ENDPOINT: &'static str = "https://www.googleapis.com/drive/v3/files";

/// The fields that each page asks for.
pub const LIST_FIELDS: &'static str = "nextPageToken,files(id,name,mimeType,size,modifiedTime)";

/// One file as the Drive API describes it.
#[derive(Debug)]
pub struct DriveFile {
    pub id: String,
    pub name: String,
    pub mime_type: String,
    /// Only present for binary files (not Google Docs, Sheets and the like).
    pub size: Option<String>,
    pub modified_time: Option<String>,
}

/// One page of a file listing.
pub struct FileListResponse {
    pub files: Vec<DriveFile>,
    pub next_page_token: Option<String>,
}

/// Why a Drive operation failed.
#[derive(Debug)]
pub enum DriveError {
    /// The HTTP client could not be built.
    ClientBuild(reqwest::Error),
}

/// A client of the Drive API, with an optional OAuth bearer token.
pub struct DriveClient {
    pub http: Client,
    pub token: Option<String>,
    redirect_limit: Option<usize>,
}

/// The view of an optional string.
pub open spec fn opt_view(s: Option<String>) -> Option<Seq<char>> {
    match s {
        Some(t) => Some(t@),
        None => None,
    }
}

impl DriveClient {
    /// The bearer token of the client, as text.
    pub closed spec fn spec_token(&self) -> Option<Seq<char>> {
        opt_view(self.token)
    }

    /// The redirect limit that the client was built with, where one was set.
    pub closed spec fn spec_redirect_limit(&self) -> Option<usize> {
        self.redirect_limit
    }

    /// Builds a client that follows up to ten redirects and authenticates
    /// with `token`, where one is given. Whether the build succeeds is up to
    /// reqwest.
    pub fn new(token: Option<String>) -> (r: Result<Self, DriveError>)
        ensures
            r matches Ok(c) ==> c.spec_token() == opt_view(token),
            r matches Ok(c) ==> c.spec_redirect_limit() == Some(MAX_REDIRECTS),
    {
        let builder = with_redirect_policy(client_builder(), limited_redirects(MAX_REDIRECTS));
        match build_client(builder) {
            Ok(built) => {
                let BuiltClient { http, redirect_limit } = built;
                Ok(Self { http, token, redirect_limit })
            },
            Err(e) => Err(DriveError::ClientBuild(e)),
        }
    }

    /// The most redirects the client follows in a chain.
    pub fn redirect_limit(&self) -> (r: Option<usize>)
        ensures
            r == self.spec_redirect_limit(),
    {
        self.redirect_limit
    }
}

/// The search expression: the untrashed files inside `folder`, or inside the
/// root of My Drive (the alias `root`) where no folder is given.
pub open spec fn folder_query_text(folder: Option<Seq<char>>) -> Seq<char> {
    match folder {
        Some(id) => "'"@ + id + "' in parents and trashed = false"@,
        None => "'"@ + "root"@ + "' in parents and trashed = false"@,
    }
}

/// The search expression for `folder_id`.
pub fn folder_query(folder_id: Option<&str>) -> (r: String)
    ensures
        r@ == folder_query_text(match folder_id { Some(id) => Some(id@), None => None }),
{
    match folder_id {
        Some(id) => {
            let mut q = "'".to_owned();
            q.append(id);
            q.append("' in parents and trashed = false");
            q
        },
        None => {
            let mut q = "'".to_owned();
            q.append("root");
            q.append("' in parents and trashed = false");
            q
        },
    }
}

/// The query parameters of one page request.
pub open spec fn page_query_text(q: Seq<char>, page_token: Option<Seq<char>>) -> Seq<(Seq<char>, Seq<char>)> {
    seq![("q"@, q), ("fields"@, LIST_FIELDS@), ("pageSize"@, "100"@), ("orderBy"@, "name"@)]
        + match page_token {
        Some(t) => seq![("pageToken"@, t)],
        None => Seq::empty(),
    }
}

/// One HTTP GET that fetches a page of the listing.
pub struct PageRequest {
    pub url: String,
    pub query: Vec<(String, String)>,
    pub bearer: Option<String>,
}

/// The query parameters of a request, as text.
pub open spec fn query_view(query: Seq<(String, String)>) -> Seq<(Seq<char>, Seq<char>)> {
    query.map_values(|p: (String, String)| (p.0@, p.1@))
}

/// A listing in progress: the search, the files gathered so far, and the
/// token of the next page.
pub struct FileListing {
    pub query: String,
    pub files: Vec<DriveFile>,
    pub page_token: Option<String>,
}

fn param(name: &str, value: &str) -> (r: (String, String))
    ensures
        r.0@ == name@,
        r.1@ == value@,
{
    (name.to_owned(), value.to_owned())
}

fn clone_opt(s: &Option<String>) -> (r: Option<String>)
    ensures
        opt_view(r) == opt_view(*s),
{
    match s {
        Some(t) => Some(t.clone()),
        None => None,
    }
}

impl FileListing {
    /// Starts the listing of `folder_id`, or of the root of My Drive.
    pub fn new(folder_id: Option<&str>) -> (r: Self)
        ensures
            r.query@ == folder_query_text(match folder_id { Some(id) => Some(id@), None => None }),
            r.files@.len() == 0,
            r.page_token is None,
    {
        FileListing { query: folder_query(folder_id), files: Vec::new(), page_token: None }
    }

    /// The request for the next page: the search, the fields, 100 files per
    /// page ordered by name, the page token once there is one, and the
    /// client's bearer token.
    pub fn request(&self, client: &DriveClient) -> (r: PageRequest)
        ensures
            r.url@ == FILES_ENDPOINT@,
            query_view(r.query@) == page_query_text(self.query@, opt_view(self.page_token)),
            opt_view(r.bearer) == client.spec_token(),
    {
        let mut query: Vec<(String, String)> = Vec::new();
        query.push(param("q", self.query.as_str()));
        query.push(param("fields", LIST_FIELDS));
        query.push(param("pageSize", "100"));
        query.push(param("orderBy", "name"));
        match &self.page_token {
            Some(t) => query.push(param("pageToken", t.as_str())),
            None => {},
        }
        assert(query_view(query@) =~= page_query_text(self.query@, opt_view(self.page_token)));
        PageRequest { url: FILES_ENDPOINT.to_owned(), query, bearer: clone_opt(&client.token) }
    }

    /// Takes in one page: its files join the end of those gathered, and its
    /// next-page token replaces the current one. Returns whether another page
    /// follows.
    pub fn add_page(&mut self, page: FileListResponse) -> (more: bool)
        ensures
            final(self).files@ == old(self).files@ + page.files@,
            opt_view(final(self).page_token) == opt_view(page.next_page_token),
            final(self).query == old(self).query,
            more == page.next_page_token is Some,
    {
        let FileListResponse { files, next_page_token } = page;
        let mut files = files;
        self.files.append(&mut files);
        let more = next_page_token.is_some();
        self.page_token = next_page_token;
        more
    }

    /// The files of all pages taken in, in order.
    pub fn into_files(self) -> (r: Vec<DriveFile>)
        ensures
            r@ == self.files@,
    {
        self.files
    }
}

/// `StatusCode::is_success`: whether an HTTP status is in 200-299, the
/// answers whose body is a page.
pub fn status_is_success(code: u16) -> (r: bool)
    ensures
        r == (200 <= code <= 299),
{
    200 <= code && code <= 299
}

} // verus!
