//! Static resources: which links lead to them, and how they are kept on disk.
use crate::codec;
use crate::http_util;
use crate::rewrite;
use crate::store;
use crate::text;
use vstd::prelude::*;

verus! {

/// How many resources are downloaded at a time.
pub const PARALLEL_DOWNLOADS: usize = 8;

/// How many seconds a download has.
pub const DOWNLOAD_SECONDS: u64 = 15;

// ---------------------------------------------------------------------------
// What is a resource
// ---------------------------------------------------------------------------

/// Whether an extension in lower case is one of static resources.
pub open spec fn is_resource_extension(ext: Seq<char>) -> bool {
    ||| ext == "png"@ || ext == "jpg"@ || ext == "jpeg"@ || ext == "gif"@ || ext == "webp"@
    ||| ext == "bmp"@ || ext == "ico"@ || ext == "svg"@ || ext == "css"@ || ext == "js"@
    ||| ext == "mjs"@ || ext == "woff"@ || ext == "woff2"@ || ext == "ttf"@ || ext == "eot"@
    ||| ext == "otf"@ || ext == "mp4"@ || ext == "webm"@ || ext == "mp3"@ || ext == "wav"@
    ||| ext == "ogg"@ || ext == "aac"@ || ext == "flac"@ || ext == "pdf"@ || ext == "zip"@
    ||| ext == "gz"@
}

/// Whether a path lies below one of the usual directories for assets.
pub open spec fn is_below_asset_dir(path: Seq<char>) -> bool {
    "/static/"@.is_prefix_of(path) || "/assets/"@.is_prefix_of(path) || "/img/"@.is_prefix_of(path)
        || "/images/"@.is_prefix_of(path) || "/upload/"@.is_prefix_of(path)
        || "/fonts/"@.is_prefix_of(path) || "/media/"@.is_prefix_of(path)
}

/// Whether a URL looks like that of a static resource, by its extension or its directory.
pub open spec fn is_resource_url(url: Seq<char>) -> bool {
    let path = rewrite::path_of_url(url);
    let ext = text::behind_last(path, '.');
    (!ext.contains('/') && is_resource_extension(text::lowered(ext))) || is_below_asset_dir(path)
}

/// Whether a content type is one of static resources.
pub open spec fn is_static_type(content_type: Seq<char>) -> bool {
    let ct = text::lowered(content_type);
    "image/"@.is_prefix_of(ct) || "font/"@.is_prefix_of(ct) || "audio/"@.is_prefix_of(ct)
        || "video/"@.is_prefix_of(ct) || text::has(ct, "text/css"@) || text::has(ct, "javascript"@)
        || text::has(ct, "ecmascript"@) || text::has(ct, "font-woff"@) || text::has(ct, "x-icon"@)
}

/// Whether a content type is one of texts that may hold links.
pub open spec fn is_text_type(content_type: Seq<char>) -> bool {
    let ct = text::lowered(content_type);
    text::has(ct, "json"@) || text::has(ct, "text"@) || text::has(ct, "html"@) || text::has(
        ct,
        "xml"@,
    ) || text::has(ct, "javascript"@) || text::has(ct, "css"@) || text::has(
        ct,
        "x-www-form-urlencoded"@,
    ) || text::has(ct, "svg"@)
}

/// Whether a download of this content type is kept. Pages and answers of interfaces are none.
pub open spec fn is_kept_type(content_type: Seq<char>) -> bool {
    let ct = text::lowered(content_type);
    !(text::has(ct, "text/html"@) || text::has(ct, "application/json"@))
}

/// Whether an extension in lower case is one of static resources.
fn resource_extension(ext: &str) -> (r: bool)
    ensures
        r == is_resource_extension(ext@),
{
    text::same(ext, "png") || text::same(ext, "jpg") || text::same(ext, "jpeg") || text::same(
        ext,
        "gif",
    ) || text::same(ext, "webp") || text::same(ext, "bmp") || text::same(ext, "ico")
        || text::same(ext, "svg") || text::same(ext, "css") || text::same(ext, "js")
        || text::same(ext, "mjs") || text::same(ext, "woff") || text::same(ext, "woff2")
        || text::same(ext, "ttf") || text::same(ext, "eot") || text::same(ext, "otf")
        || text::same(ext, "mp4") || text::same(ext, "webm") || text::same(ext, "mp3")
        || text::same(ext, "wav") || text::same(ext, "ogg") || text::same(ext, "aac")
        || text::same(ext, "flac") || text::same(ext, "pdf") || text::same(ext, "zip")
        || text::same(ext, "gz")
}

/// Whether a URL looks like that of a static resource.
pub fn looks_like_resource(url: &str) -> (r: bool)
    ensures
        r == is_resource_url(url@),
{
    let path = rewrite::url_path(url);
    let cs = text::chars_of(&path);
    let ext = text::take_behind_last(&cs, '.');
    let slash: usize = text::index_of_either(ext, '/', '/');
    proof {
        text::lemma_upto(ext@, '/', '/');
        if slash < ext@.len() {
            assert(ext@[slash as int] == '/');
        }
    }
    if slash == ext.len() && resource_extension(&text::string_of(&text::to_lower(ext))) {
        return true;
    }
    text::str_starts_with(&path, "/static/") || text::str_starts_with(&path, "/assets/")
        || text::str_starts_with(&path, "/img/") || text::str_starts_with(&path, "/images/")
        || text::str_starts_with(&path, "/upload/") || text::str_starts_with(&path, "/fonts/")
        || text::str_starts_with(&path, "/media/")
}

/// Whether a response of this content type is kept as a static resource.
pub fn is_static_asset_type(content_type: &str) -> (r: bool)
    ensures
        r == is_static_type(content_type@),
{
    let ct = text::lower_string(content_type);
    text::str_starts_with(&ct, "image/") || text::str_starts_with(&ct, "font/")
        || text::str_starts_with(&ct, "audio/") || text::str_starts_with(&ct, "video/")
        || text::str_contains(&ct, "text/css") || text::str_contains(&ct, "javascript")
        || text::str_contains(&ct, "ecmascript") || text::str_contains(&ct, "font-woff")
        || text::str_contains(&ct, "x-icon")
}

/// Whether a body of this content type is a text that may hold links.
pub fn is_text_body(content_type: &str) -> (r: bool)
    ensures
        r == is_text_type(content_type@),
{
    let ct = text::lower_string(content_type);
    text::str_contains(&ct, "json") || text::str_contains(&ct, "text") || text::str_contains(
        &ct,
        "html",
    ) || text::str_contains(&ct, "xml") || text::str_contains(&ct, "javascript")
        || text::str_contains(&ct, "css") || text::str_contains(&ct, "x-www-form-urlencoded")
        || text::str_contains(&ct, "svg")
}

/// Whether a download of this content type is kept.
pub fn acceptable_content_type(content_type: &str) -> (r: bool)
    ensures
        r == is_kept_type(content_type@),
{
    let ct = text::lower_string(content_type);
    !(text::str_contains(&ct, "text/html") || text::str_contains(&ct, "application/json"))
}

/// Whether a download is kept, by its status, its content type and the length of its body.
pub open spec fn is_kept_download(status: u16, content_type: Seq<char>, len: nat) -> bool {
    status == 200 && is_kept_type(content_type) && len > 0
}

/// Whether a download is kept, by its status, content type and body.
pub fn keeps_download(status: u16, content_type: &str, body: &[u8]) -> (r: bool)
    ensures
        r == (status == 200 && is_kept_type(content_type@) && body@.len() > 0),
        r == is_kept_download(status, content_type@, body@.len()),
{
    status == 200 && acceptable_content_type(content_type) && body.len() > 0
}

// ---------------------------------------------------------------------------
// What a response refers to
// ---------------------------------------------------------------------------

/// The scheme and authority of a URL; `None` where it has no scheme.
pub open spec fn origin_of_url(url: Seq<char>) -> Option<Seq<char>> {
    match text::cut_text(url, "://"@) {
        Some((scheme, rest)) => Some(scheme + "://"@ + text::before(rest, '/', '?')),
        None => None,
    }
}

/// The scheme and authority of a URL: the origin under which what it leads to is kept.
pub fn url_origin(url: &str) -> (r: Option<String>)
    ensures
        text::opt_text(r) == origin_of_url(url@),
{
    let cs = text::chars_of(url);
    match text::split_once(&cs, "://") {
        Some((scheme, rest)) => {
            let mut out = text::vec_of(scheme);
            text::push_str(&mut out, "://");
            let end: usize = text::index_of_either(rest, '/', '?');
            text::push_all(&mut out, text::take(rest, end));
            Some(text::string_of(&out))
        },
        None => None,
    }
}

/// The links of a text: absolute URLs, and paths of assets below the text's own origin.
pub open spec fn links_in(s: Seq<char>, origin: Seq<char>) -> Seq<Seq<char>> {
    rewrite::urls_in(s) + rewrite::asset_paths_in(s).map_values(|p: Seq<char>| origin + p)
}

/// The links of a list that look like resources.
pub open spec fn resources_among(links: Seq<Seq<char>>) -> Seq<Seq<char>>
    decreases links.len(),
{
    if links.len() == 0 {
        seq![]
    } else {
        let front = resources_among(links.drop_last());
        if is_resource_url(links.last()) {
            front.push(links.last())
        } else {
            front
        }
    }
}

/// The resources that a response refers to, each once, in order; none where the response is not
/// a text.
pub open spec fn resources_of(s: Seq<char>, content_type: Seq<char>, origin: Seq<char>) -> Seq<
    Seq<char>,
> {
    if is_text_type(content_type) {
        resources_among(text::unique(links_in(s, origin)))
    } else {
        seq![]
    }
}

/// Gathers links, each once, in order, and keeps those that look like resources. `urls` are
/// absolute; `paths` lie below `origin`.
pub fn gather_resources(urls: &[String], paths: &[String], origin: &str) -> (r: Vec<String>)
    ensures
        text::texts(r@) == resources_among(
            text::unique(
                text::texts(urls@) + text::texts(paths@).map_values(|p: Seq<char>| origin@ + p),
            ),
        ),
{
    let ghost list = text::texts(urls@) + text::texts(paths@).map_values(
        |p: Seq<char>| origin@ + p,
    );
    let n: usize = urls.len();
    let m: usize = paths.len();
    let mut all: Vec<String> = Vec::new();
    let mut i: usize = 0;
    assert(text::texts(all@) =~= text::unique(list.take(0)));
    while i < n
        invariant
            i <= n == urls@.len(),
            list == text::texts(urls@) + text::texts(paths@).map_values(
                |p: Seq<char>| origin@ + p,
            ),
            text::texts(all@) == text::unique(list.take(i as int)),
        decreases n - i,
    {
        let url = urls[i].clone();
        proof {
            assert(list.take(i + 1).drop_last() =~= list.take(i as int));
            assert(list.take(i + 1).last() == url@);
        }
        if !text::listed(&all, &url) {
            proof {
                text::lemma_texts_push(all@, url);
            }
            all.push(url);
        }
        i += 1;
    }
    let mut j: usize = 0;
    while j < m
        invariant
            j <= m == paths@.len(),
            n == urls@.len(),
            list == text::texts(urls@) + text::texts(paths@).map_values(
                |p: Seq<char>| origin@ + p,
            ),
            text::texts(all@) == text::unique(list.take(n + j)),
        decreases m - j,
    {
        let mut cs = text::chars_of(origin);
        text::push_str(&mut cs, &paths[j]);
        let url = text::string_of(&cs);
        proof {
            assert(list.take(n + j + 1).drop_last() =~= list.take(n + j));
            assert(list.take(n + j + 1).last() == url@);
        }
        if !text::listed(&all, &url) {
            proof {
                text::lemma_texts_push(all@, url);
            }
            all.push(url);
        }
        j += 1;
    }
    assert(list.take(n + m) =~= list);
    let ghost unique = text::texts(all@);
    let total: usize = all.len();
    let mut out: Vec<String> = Vec::new();
    let mut k: usize = 0;
    assert(text::texts(out@) =~= resources_among(unique.take(0)));
    while k < total
        invariant
            k <= total == all@.len(),
            unique == text::texts(all@),
            text::texts(out@) == resources_among(unique.take(k as int)),
        decreases total - k,
    {
        assert(unique.take(k + 1).drop_last() =~= unique.take(k as int));
        if looks_like_resource(&all[k]) {
            let url = all[k].clone();
            proof {
                text::lemma_texts_push(out@, url);
            }
            out.push(url);
        }
        k += 1;
    }
    assert(unique.take(total as int) =~= unique);
    out
}

/// The resources that a response refers to.
pub fn referenced_resources(body_text: &str, content_type: &str, origin: &str) -> (r: Vec<String>)
    ensures
        text::texts(r@) == resources_of(body_text@, content_type@, origin@),
{
    if !is_text_body(content_type) {
        let none: Vec<String> = Vec::new();
        assert(text::texts(none@) =~= Seq::<Seq<char>>::empty());
        return none;
    }
    let urls = rewrite::extract_http_urls(body_text);
    let paths = rewrite::extract_relative_asset_paths(body_text);
    gather_resources(&urls, &paths, origin)
}

// ---------------------------------------------------------------------------
// Paths on disk
// ---------------------------------------------------------------------------

/// Whether a character is safe in a file name on every system.
pub open spec fn is_safe(c: char) -> bool {
    text::is_alphanumeric(c) || c == '.' || c == '_' || c == '-'
}

/// The text without trailing dots and spaces.
pub open spec fn without_dots_and_spaces(s: Seq<char>) -> Seq<char>
    decreases s.len(),
{
    if s.len() > 0 && (s.last() == '.' || s.last() == ' ') {
        without_dots_and_spaces(s.drop_last())
    } else {
        s
    }
}

/// The text with an underscore for each character that is not safe.
pub open spec fn sanitized(s: Seq<char>) -> Seq<char> {
    Seq::new(
        s.len(),
        |i: int|
            if is_safe(s[i]) {
                s[i]
            } else {
                '_'
            },
    )
}

/// Whether a name, up to its first dot, is that of a device on Windows.
pub open spec fn is_device_name(s: Seq<char>) -> bool {
    let stem = text::lowered(text::before(s, '.', '.'));
    ||| stem == "con"@ || stem == "prn"@ || stem == "aux"@ || stem == "nul"@
    ||| stem.len() == 4 && ("com"@.is_prefix_of(stem) || "lpt"@.is_prefix_of(stem)) && '1'
        <= stem[3] <= '9'
}

/// A segment of a path as it stands on disk: trailing dots and spaces trimmed, unsafe
/// characters replaced, leading dots trimmed, and the name of a device prefixed.
pub open spec fn segment_name(s: Seq<char>) -> Seq<char> {
    let name = text::without_leading(sanitized(without_dots_and_spaces(s)), '.');
    if is_device_name(name) {
        "_"@ + name
    } else {
        name
    }
}

/// The segments of a path as they stand on disk.
pub open spec fn segment_names(path: Seq<char>) -> Seq<Seq<char>> {
    text::nonempty(
        text::split(text::without_leading(path, '/'), '/').map_values(
            |s: Seq<char>| segment_name(s),
        ),
    )
}

/// The path of a resource on disk, below the directory of its origin.
pub open spec fn resource_path(path: Seq<char>) -> Seq<char> {
    let names = segment_names(path);
    if names.len() == 0 {
        "index"@
    } else {
        text::joined(names, seq!['/'])
    }
}

/// Whether a character is safe in a file name.
fn safe(c: char) -> (r: bool)
    ensures
        r == is_safe(c),
{
    text::alphanumeric(c) || c == '.' || c == '_' || c == '-'
}

/// Whether a name, up to its first dot, is that of a device on Windows.
fn device_name(s: &[char]) -> (r: bool)
    ensures
        r == is_device_name(s@),
{
    let end: usize = text::index_of_either(s, '.', '.');
    let stem = text::to_lower(text::take(s, end));
    let name = text::string_of(&stem);
    if text::same(&name, "con") || text::same(&name, "prn") || text::same(&name, "aux")
        || text::same(&name, "nul") {
        return true;
    }
    stem.len() == 4 && (text::starts_with(&stem, &text::chars_of("com")) || text::starts_with(
        &stem,
        &text::chars_of("lpt"),
    )) && '1' <= stem[3] && stem[3] <= '9'
}

/// Writes a segment of a path as it stands on disk.
pub fn write_segment(s: &[char]) -> (r: Vec<char>)
    ensures
        r@ == segment_name(s@),
{
    let mut to: usize = s.len();
    assert(s@.take(to as int) =~= s@);
    while to > 0 && (s[to - 1] == '.' || s[to - 1] == ' ')
        invariant
            to <= s@.len(),
            without_dots_and_spaces(s@) == without_dots_and_spaces(s@.take(to as int)),
        decreases to,
    {
        assert(s@.take(to as int).drop_last() =~= s@.take(to - 1));
        to -= 1;
    }
    let front = text::take(s, to);
    let mut clean: Vec<char> = Vec::new();
    let mut i: usize = 0;
    while i < to
        invariant
            i <= to == front@.len(),
            clean@ == sanitized(front@).take(i as int),
        decreases to - i,
    {
        let c: char = front[i];
        if safe(c) {
            clean.push(c);
        } else {
            clean.push('_');
        }
        i += 1;
        assert(clean@ =~= sanitized(front@).take(i as int));
    }
    assert(sanitized(front@).take(to as int) =~= sanitized(front@));
    let name = text::trim_leading(&clean, '.');
    if device_name(name) {
        let mut out = text::chars_of("_");
        text::push_all(&mut out, name);
        out
    } else {
        text::vec_of(name)
    }
}

/// The path of a resource on disk, below the directory of its origin.
pub fn normalize_resource_path(raw_path: &str) -> (r: String)
    ensures
        r@ == resource_path(raw_path@),
{
    let cs = text::chars_of(raw_path);
    let parts = text::split_at_char(text::trim_leading(&cs, '/'), '/');
    let ghost all = text::split(text::without_leading(raw_path@, '/'), '/').map_values(
        |s: Seq<char>| segment_name(s),
    );
    let n: usize = parts.len();
    let mut names: Vec<Vec<char>> = Vec::new();
    let mut i: usize = 0;
    assert(text::pieces(names@) =~= text::nonempty(all.take(0)));
    while i < n
        invariant
            i <= n == parts@.len(),
            text::pieces(parts@) == text::split(text::without_leading(raw_path@, '/'), '/'),
            all == text::pieces(parts@).map_values(|s: Seq<char>| segment_name(s)),
            text::pieces(names@) == text::nonempty(all.take(i as int)),
        decreases n - i,
    {
        let name = write_segment(&parts[i]);
        proof {
            assert(all.take(i + 1).drop_last() =~= all.take(i as int));
            assert(all.take(i + 1).last() == name@);
        }
        if name.len() > 0 {
            proof {
                text::lemma_pieces_push(names@, name);
            }
            names.push(name);
        }
        i += 1;
    }
    assert(all.take(n as int) =~= all);
    if names.len() == 0 {
        text::owned("index")
    } else {
        let sep: [char; 1] = ['/'];
        assert(sep@ =~= seq!['/']);
        text::string_of(&text::join(&names, &sep))
    }
}

// ---------------------------------------------------------------------------
// The store of resources
// ---------------------------------------------------------------------------

/// An entry of the index of resources.
#[derive(Debug)]
pub struct ResourceIndexEntry {
    /// The SHA-256 digest of the content, in hexadecimal.
    pub hash: String,
    /// The origin of the resource itself.
    pub origin: String,
    /// The path on disk below the directory of the origin, such as `img/a.png`.
    pub path: String,
    /// The path of its URL, such as `/img/a.png`; `None` in an index that was written without it.
    pub url_path: Option<String>,
    pub content_type: String,
    pub size: usize,
}

/// The model of an index entry.
pub struct Entry {
    /// The digest of the content.
    pub hash: Seq<char>,
    /// The origin.
    pub origin: Seq<char>,
    /// The path on disk.
    pub path: Seq<char>,
    /// The path of its URL.
    pub url_path: Option<Seq<char>>,
    /// The content type.
    pub content_type: Seq<char>,
    /// The length of the content.
    pub size: usize,
}

impl View for ResourceIndexEntry {
    type V = Entry;

    open spec fn view(&self) -> Entry {
        Entry {
            hash: self.hash@,
            origin: self.origin@,
            path: self.path@,
            url_path: text::opt_text(self.url_path),
            content_type: self.content_type@,
            size: self.size,
        }
    }
}

impl Clone for ResourceIndexEntry {
    fn clone(&self) -> (r: Self)
        ensures
            r@ == self@,
    {
        ResourceIndexEntry {
            hash: self.hash.clone(),
            origin: self.origin.clone(),
            path: self.path.clone(),
            url_path: match &self.url_path {
                Some(p) => Some(p.clone()),
                None => None,
            },
            content_type: self.content_type.clone(),
            size: self.size,
        }
    }
}

impl ResourceIndexEntry {
    /// The path under which the resource is found.
    pub fn own_path(&self) -> (r: String)
        ensures
            r@ == own_path(self@),
    {
        match &self.url_path {
            Some(p) => p.clone(),
            None => {
                let mut out = text::chars_of("/");
                text::push_str(&mut out, &self.path);
                text::string_of(&out)
            },
        }
    }
}

/// The path under which a resource is found: that of its URL or, where the index does not tell
/// it, the one on disk behind a slash.
pub open spec fn own_path(e: Entry) -> Seq<char> {
    match e.url_path {
        Some(p) => p,
        None => "/"@ + e.path,
    }
}

/// A path that begins at the root: as it is or, where it does not, behind a slash.
pub open spec fn rooted(path: Seq<char>) -> Seq<char> {
    if path.len() > 0 && path[0] == '/' {
        path
    } else {
        "/"@ + path
    }
}

/// Makes a path begin at the root.
fn root_path(path: &str) -> (r: String)
    ensures
        r@ == rooted(path@),
{
    let cs = text::chars_of(path);
    if cs.len() > 0 && cs[0] == '/' {
        return text::owned(path);
    }
    let mut out = text::chars_of("/");
    text::push_all(&mut out, &cs);
    text::string_of(&out)
}

/// The view of an index.
pub open spec fn entries(index: Seq<ResourceIndexEntry>) -> Seq<Entry> {
    index.map_values(|e: ResourceIndexEntry| e@)
}

/// Whether an index has an entry for a path below an origin.
pub open spec fn has_place(index: Seq<Entry>, origin: Seq<char>, path: Seq<char>) -> bool {
    exists|i: int|
        0 <= i < index.len() && (#[trigger] index[i]).origin == origin && index[i].path == path
}

/// Whether an index has a resource of an origin that is found under a path.
pub open spec fn has_resource(index: Seq<Entry>, origin: Seq<char>, own: Seq<char>) -> bool {
    exists|i: int|
        0 <= i < index.len() && (#[trigger] index[i]).origin == origin && own_path(index[i]) == own
}

/// Whether an index has at most one resource of an origin for each path.
pub open spec fn one_per_path(index: Seq<Entry>) -> bool {
    forall|i: int, j: int|
        0 <= i < j < index.len() ==> (#[trigger] index[i]).origin != (#[trigger] index[j]).origin
            || own_path(index[i]) != own_path(index[j])
}

/// The entry for a resource.
pub open spec fn entry_for(
    data: Seq<u8>,
    origin: Seq<char>,
    url_path: Seq<char>,
    content_type: Seq<char>,
) -> Entry {
    Entry {
        hash: codec::hex_text(codec::sha256(data)),
        origin,
        path: resource_path(url_path),
        url_path: Some(rooted(url_path)),
        content_type,
        size: data.len() as usize,
    }
}

/// Where a resource is to be kept.
#[derive(Debug)]
pub struct StorePlan {
    /// The entry of the index.
    pub entry: ResourceIndexEntry,
    /// The file with the content, below the directory of resources. It is named by the digest,
    /// so that one content is kept once.
    pub blob: String,
    /// The file under the resource's path on disk, below the directory of resources: a link to
    /// the blob; `None` where the index has the path already.
    pub copy: Option<String>,
}

/// The path of the file with a content, below the directory of resources.
pub open spec fn blob_path(hash: Seq<char>) -> Seq<char> {
    "blobs/"@ + hash
}

/// The path of the file under a resource's own path, below the directory of resources.
pub open spec fn copy_path(origin: Seq<char>, path: Seq<char>) -> Seq<char> {
    store::origin_dir(origin) + "/"@ + path
}

/// The static resources of a data directory.
pub struct ResourceStore {
    root: String,
    index: Vec<ResourceIndexEntry>,
}

impl ResourceStore {
    /// The directory of resources.
    pub closed spec fn dir(&self) -> Seq<char> {
        self.root@
    }

    /// The index.
    pub closed spec fn entries(&self) -> Seq<ResourceIndexEntry> {
        self.index@
    }

    /// The store in a directory with the given index.
    pub fn open(root: String, index: Vec<ResourceIndexEntry>) -> (r: Self)
        ensures
            r.dir() == root@,
            r.entries() == index@,
    {
        ResourceStore { root, index }
    }

    /// The directory of resources.
    pub fn root(&self) -> (r: &str)
        ensures
            r@ == self.dir(),
    {
        self.root.as_str()
    }

    /// The index.
    pub fn index(&self) -> (r: &[ResourceIndexEntry])
        ensures
            r@ == self.entries(),
    {
        self.index.as_slice()
    }

    /// Whether the index has an entry for a path below an origin.
    pub fn has(&self, origin: &str, path: &str) -> (r: bool)
        ensures
            r == has_place(entries(self.entries()), origin@, path@),
    {
        let ghost all = entries(self.index@);
        let n: usize = self.index.len();
        let mut i: usize = 0;
        while i < n
            invariant
                i <= n == self.index@.len(),
                all == entries(self.index@),
                forall|j: int|
                    0 <= j < i ==> (#[trigger] all[j]).origin != origin@ || all[j].path != path@,
            decreases n - i,
        {
            let e = &self.index[i];
            assert(all[i as int] == e@);
            if text::same(&e.origin, origin) && text::same(&e.path, path) {
                return true;
            }
            i += 1;
        }
        false
    }

    /// Whether the index has a resource of an origin that is found under a path.
    pub fn finds(&self, origin: &str, own: &str) -> (r: bool)
        ensures
            r == has_resource(entries(self.entries()), origin@, own@),
    {
        let ghost all = entries(self.index@);
        let n: usize = self.index.len();
        let mut i: usize = 0;
        while i < n
            invariant
                i <= n == self.index@.len(),
                all == entries(self.index@),
                forall|j: int|
                    0 <= j < i ==> (#[trigger] all[j]).origin != origin@ || own_path(all[j])
                        != own@,
            decreases n - i,
        {
            let e = &self.index[i];
            assert(all[i as int] == e@);
            if text::same(&e.origin, origin) && text::same(&e.own_path(), own) {
                return true;
            }
            i += 1;
        }
        false
    }

    /// Where a resource is to be kept.
    pub fn plan(
        &self,
        data: &[u8],
        origin: &str,
        url_path: &str,
        content_type: &str,
    ) -> (r: StorePlan)
        ensures
            r.entry@ == entry_for(data@, origin@, url_path@, content_type@),
            r.blob@ == blob_path(r.entry.hash@),
            text::opt_text(r.copy) == if has_place(
                entries(self.entries()),
                origin@,
                resource_path(url_path@),
            ) {
                None
            } else {
                Some(copy_path(origin@, resource_path(url_path@)))
            },
    {
        let hash = store::sha256_hex(data);
        let path = normalize_resource_path(url_path);
        let mut blob = text::chars_of("blobs/");
        text::push_str(&mut blob, &hash);
        let copy = if self.has(origin, &path) {
            None
        } else {
            let mut target = text::chars_of(&store::origin_dir_name(origin));
            text::push_str(&mut target, "/");
            text::push_str(&mut target, &path);
            Some(text::string_of(&target))
        };
        let entry = ResourceIndexEntry {
            hash,
            origin: text::owned(origin),
            path,
            url_path: Some(root_path(url_path)),
            content_type: text::owned(content_type),
            size: data.len(),
        };
        StorePlan { entry, blob: text::string_of(&blob), copy }
    }

    /// Enters a resource that was kept into the index, where none is found under its path yet.
    pub fn store(&mut self, entry: ResourceIndexEntry)
        ensures
            final(self).dir() == old(self).dir(),
            final(self).entries() == if has_resource(
                entries(old(self).entries()),
                entry.origin@,
                own_path(entry@),
            ) {
                old(self).entries()
            } else {
                old(self).entries().push(entry)
            },
            one_per_path(entries(old(self).entries())) ==> one_per_path(
                entries(final(self).entries()),
            ),
    {
        if !self.finds(&entry.origin, &entry.own_path()) {
            proof {
                let before = entries(self.index@);
                let after = entries(self.index@.push(entry));
                assert(after =~= before.push(entry@));
                if one_per_path(before) {
                    assert forall|i: int, j: int| 0 <= i < j < after.len() implies (
                    #[trigger] after[i]).origin != (#[trigger] after[j]).origin || own_path(
                        after[i],
                    ) != own_path(after[j]) by {
                        assert(after[i] == before[i]);
                        if j < before.len() {
                            assert(after[j] == before[j]);
                        }
                    }
                }
            }
            self.index.push(entry);
        }
    }
}

// ---------------------------------------------------------------------------
// Laws
// ---------------------------------------------------------------------------

/// Whether a text can be the name of a file on every system: not empty, of safe characters, with
/// no dot at its ends, and not that of a device.
pub open spec fn is_file_name(s: Seq<char>) -> bool {
    &&& s.len() > 0
    &&& forall|i: int| 0 <= i < s.len() ==> is_safe(#[trigger] s[i])
    &&& s[0] != '.'
    &&& s.last() != '.'
    &&& !is_device_name(s)
}

/// What is left without trailing dots and spaces ends with neither.
proof fn lemma_without_dots_and_spaces(s: Seq<char>)
    ensures
        without_dots_and_spaces(s).len() > 0 ==> without_dots_and_spaces(s).last() != '.'
            && without_dots_and_spaces(s).last() != ' ',
        s.len() > 0 && s.last() != '.' && s.last() != ' ' ==> without_dots_and_spaces(s) == s,
    decreases s.len(),
{
    if s.len() > 0 && (s.last() == '.' || s.last() == ' ') {
        lemma_without_dots_and_spaces(s.drop_last());
    }
}

/// What is left without leading characters is an end of the text that does not begin with one.
proof fn lemma_without_leading(s: Seq<char>, c: char)
    ensures
        ({
            let r = text::without_leading(s, c);
            &&& r.len() <= s.len()
            &&& r == s.skip(s.len() - r.len())
            &&& r.len() > 0 ==> r[0] != c
            &&& s.len() > 0 && s[0] != c ==> r == s
        }),
    decreases s.len(),
{
    if s.len() > 0 && s[0] == c {
        let t = s.drop_first();
        lemma_without_leading(t, c);
        let r = text::without_leading(s, c);
        assert(t.skip(t.len() - r.len()) =~= s.skip(s.len() - r.len()));
    } else {
        assert(s.skip(0) =~= s);
    }
}

/// A segment is written as a file name, or as nothing.
pub proof fn law_segments_are_file_names(s: Seq<char>)
    ensures
        segment_name(s).len() > 0 ==> is_file_name(segment_name(s)),
{
    let front = without_dots_and_spaces(s);
    let clean = sanitized(front);
    let name = text::without_leading(clean, '.');
    lemma_without_dots_and_spaces(s);
    lemma_without_leading(clean, '.');
    reveal_strlit("_");
    assert forall|i: int| 0 <= i < name.len() implies is_safe(#[trigger] name[i]) by {
        assert(name[i] == clean[i + (clean.len() - name.len())]);
    }
    if name.len() > 0 {
        assert(name.last() == clean.last());
        if is_device_name(name) {
            let r = "_"@ + name;
            assert(r[0] == '_');
            assert(r.last() == name.last());
            assert forall|i: int| 0 <= i < r.len() implies is_safe(#[trigger] r[i]) by {
                if i > 0 {
                    assert(r[i] == name[i - 1]);
                }
            }
            lemma_prefixed_is_no_device(name);
        }
    } else {
        assert(name =~= Seq::<char>::empty());
        assert(!is_device_name(name)) by {
            reveal_strlit("con");
            reveal_strlit("prn");
            reveal_strlit("aux");
            reveal_strlit("nul");
            assert(text::lowered(text::before(name, '.', '.')).len() == 0);
        }
    }
}

/// A name behind an underscore is not that of a device.
proof fn lemma_prefixed_is_no_device(name: Seq<char>)
    ensures
        !is_device_name("_"@ + name),
{
    reveal_strlit("_");
    reveal_strlit("con");
    reveal_strlit("prn");
    reveal_strlit("aux");
    reveal_strlit("nul");
    reveal_strlit("com");
    reveal_strlit("lpt");
    let r = "_"@ + name;
    assert(r[0] == '_');
    let stem = text::lowered(text::before(r, '.', '.'));
    text::lemma_upto(r, '.', '.');
    assert(text::upto(r, '.', '.') > 0);
    assert(stem[0] == '_');
    if "com"@.is_prefix_of(stem) {
        assert(stem.subrange(0, 3)[0] == 'c');
    }
    if "lpt"@.is_prefix_of(stem) {
        assert(stem.subrange(0, 3)[0] == 'l');
    }
}

/// A file name is written as it is.
proof fn lemma_file_name_stays(s: Seq<char>)
    requires
        is_file_name(s),
    ensures
        segment_name(s) == s,
{
    assert(is_safe(s[s.len() - 1]));
    lemma_without_dots_and_spaces(s);
    assert(sanitized(s) =~= s);
    lemma_without_leading(s, '.');
}

/// What is kept of a list of texts is in it, and not empty; what is not empty is kept.
proof fn lemma_nonempty(list: Seq<Seq<char>>)
    ensures
        forall|i: int|
            0 <= i < text::nonempty(list).len() ==> (#[trigger] text::nonempty(list)[i]).len() > 0
                && list.contains(text::nonempty(list)[i]),
        (forall|i: int| 0 <= i < list.len() ==> (#[trigger] list[i]).len() > 0)
            ==> text::nonempty(list) == list,
    decreases list.len(),
{
    if list.len() > 0 {
        let front = list.drop_last();
        lemma_nonempty(front);
        let r = text::nonempty(list);
        let f = text::nonempty(front);
        assert forall|i: int| 0 <= i < r.len() implies (#[trigger] r[i]).len() > 0
            && list.contains(r[i]) by {
            if i < f.len() {
                assert(r[i] == f[i]);
                assert(front.contains(f[i]));
                let j = choose|j: int| 0 <= j < front.len() && front[j] == f[i];
                assert(list[j] == f[i]);
            } else {
                assert(list[list.len() - 1] == r[i]);
            }
        }
        if forall|i: int| 0 <= i < list.len() ==> (#[trigger] list[i]).len() > 0 {
            assert forall|i: int| 0 <= i < front.len() implies (#[trigger] front[i]).len() > 0 by {
                assert(front[i] == list[i]);
            }
            assert(list[list.len() - 1].len() > 0);
            assert(r =~= list);
        }
    } else {
        assert(text::nonempty(list) =~= list);
    }
}

/// The path of a resource on disk consists of file names: it stays below its directory on every
/// system, whatever the URL.
pub proof fn law_resource_path_is_safe(path: Seq<char>)
    ensures
        forall|i: int|
            0 <= i < text::split(resource_path(path), '/').len() ==> is_file_name(
                #[trigger] text::split(resource_path(path), '/')[i],
            ),
{
    let names = segment_names(path);
    lemma_names(path);
    if names.len() == 0 {
        lemma_index_name();
    } else {
        text::lemma_split_joined(names, '/');
    }
}

/// The segments of a path on disk are file names, without a slash in them.
proof fn lemma_names(path: Seq<char>)
    ensures
        forall|i: int|
            0 <= i < segment_names(path).len() ==> is_file_name(#[trigger] segment_names(path)[i])
                && !segment_names(path)[i].contains('/'),
{
    let parts = text::split(text::without_leading(path, '/'), '/');
    let all = parts.map_values(|s: Seq<char>| segment_name(s));
    let names = segment_names(path);
    lemma_nonempty(all);
    assert forall|i: int| 0 <= i < names.len() implies is_file_name(#[trigger] names[i])
        && !names[i].contains('/') by {
        let j = choose|j: int| 0 <= j < all.len() && all[j] == names[i];
        law_segments_are_file_names(parts[j]);
        if names[i].contains('/') {
            let k = choose|k: int| 0 <= k < names[i].len() && names[i][k] == '/';
            assert(is_safe(names[i][k]));
        }
    }
}

/// The name that stands for the root is a file name.
proof fn lemma_index_name()
    ensures
        text::split("index"@, '/') == seq!["index"@],
        is_file_name("index"@),
{
    let s = "index"@;
    reveal_strlit("index");
    reveal_strlit("con");
    reveal_strlit("prn");
    reveal_strlit("aux");
    reveal_strlit("nul");
    text::lemma_upto_is(s, '/', '/', 5);
    assert(text::split(s, '/') =~= seq![s]);
    text::lemma_upto_is(s, '.', '.', 5);
    assert(text::before(s, '.', '.') =~= s);
    assert(text::lowered(s).len() == 5);
}

/// The path of a resource on disk is its own path on disk.
pub proof fn law_resource_path_is_stable(path: Seq<char>)
    ensures
        resource_path(resource_path(path)) == resource_path(path),
{
    let r = resource_path(path);
    let names = segment_names(path);
    let parts = if names.len() == 0 {
        seq!["index"@]
    } else {
        names
    };
    lemma_names(path);
    if names.len() == 0 {
        lemma_index_name();
        assert(text::joined(parts, seq!['/']) =~= r);
    } else {
        text::lemma_split_joined(names, '/');
    }
    assert(text::split(r, '/') == parts);
    assert(r == text::joined(parts, seq!['/']));
    lemma_joined_begins(parts);
    lemma_without_leading(r, '/');
    assert forall|i: int| 0 <= i < parts.len() implies segment_name(#[trigger] parts[i])
        == parts[i] by {
        lemma_file_name_stays(parts[i]);
    }
    assert(parts.map_values(|s: Seq<char>| segment_name(s)) =~= parts);
    lemma_nonempty(parts);
}

/// Texts joined with slashes begin as the first of them.
proof fn lemma_joined_begins(parts: Seq<Seq<char>>)
    requires
        parts.len() > 0,
        parts[0].len() > 0,
        is_file_name(parts[0]),
    ensures
        text::joined(parts, seq!['/']).len() > 0,
        text::joined(parts, seq!['/'])[0] == parts[0][0],
        parts[0][0] != '/',
    decreases parts.len(),
{
    assert(is_safe(parts[0][0]));
    if parts.len() > 1 {
        lemma_joined_begins(parts.drop_last());
    }
}

/// One content is kept in one file, whatever URL it came from.
pub proof fn law_one_blob_per_content(
    data: Seq<u8>,
    origin_a: Seq<char>,
    path_a: Seq<char>,
    type_a: Seq<char>,
    origin_b: Seq<char>,
    path_b: Seq<char>,
    type_b: Seq<char>,
)
    ensures
        blob_path(entry_for(data, origin_a, path_a, type_a).hash) == blob_path(
            entry_for(data, origin_b, path_b, type_b).hash,
        ),
{
}

/// The extensions of static resources.
pub open spec fn resource_extensions() -> Seq<Seq<char>> {
    seq![
        "png"@, "jpg"@, "jpeg"@, "gif"@, "webp"@, "bmp"@, "ico"@, "svg"@, "css"@, "js"@,
        "mjs"@, "woff"@, "woff2"@, "ttf"@, "eot"@, "otf"@, "mp4"@, "webm"@, "mp3"@, "wav"@,
        "ogg"@, "aac"@, "flac"@, "pdf"@, "zip"@, "gz"@,
    ]
}

/// The extensions of static resources are those of the list.
proof fn lemma_resource_extensions(ext: Seq<char>)
    ensures
        resource_extensions().contains(ext) <==> is_resource_extension(ext),
{
    let l = resource_extensions();
    assert(l[0] == "png"@ && l[1] == "jpg"@ && l[2] == "jpeg"@ && l[3] == "gif"@);
    assert(l[4] == "webp"@ && l[5] == "bmp"@ && l[6] == "ico"@ && l[7] == "svg"@);
    assert(l[8] == "css"@ && l[9] == "js"@ && l[10] == "mjs"@ && l[11] == "woff"@);
    assert(l[12] == "woff2"@ && l[13] == "ttf"@ && l[14] == "eot"@ && l[15] == "otf"@);
    assert(l[16] == "mp4"@ && l[17] == "webm"@ && l[18] == "mp3"@ && l[19] == "wav"@);
    assert(l[20] == "ogg"@ && l[21] == "aac"@ && l[22] == "flac"@ && l[23] == "pdf"@);
    assert(l[24] == "zip"@ && l[25] == "gz"@ && l.len() == 26);
    if l.contains(ext) {
        let i = choose|i: int| 0 <= i < l.len() && l[i] == ext;
        assert(l[i] == ext);
    }
}

/// A URL looks like that of a resource exactly where its path ends in one of the extensions, in
/// whatever case, or lies below one of the directories for assets; its query counts for nothing.
pub proof fn law_resource_urls(
    scheme: Seq<char>,
    authority: Seq<char>,
    stem: Seq<char>,
    ext: Seq<char>,
    query: Seq<char>,
)
    requires
        http_util::is_scheme(scheme),
        http_util::is_authority(authority),
        stem.len() > 0,
        stem[0] == '/',
        !stem.contains('?'),
        !ext.contains('?'),
        !ext.contains('/'),
        !ext.contains('.'),
    ensures
        ({
            let path = stem + "."@ + ext;
            let url = scheme + "://"@ + authority + path;
            let looks = seq![
                "png"@, "jpg"@, "jpeg"@, "gif"@, "webp"@, "bmp"@, "ico"@, "svg"@, "css"@, "js"@,
                "mjs"@, "woff"@, "woff2"@, "ttf"@, "eot"@, "otf"@, "mp4"@, "webm"@, "mp3"@, "wav"@,
                "ogg"@, "aac"@, "flac"@, "pdf"@, "zip"@, "gz"@,
            ].contains(text::lowered(ext)) || "/static/"@.is_prefix_of(path)
                || "/assets/"@.is_prefix_of(path) || "/img/"@.is_prefix_of(path)
                || "/images/"@.is_prefix_of(path) || "/upload/"@.is_prefix_of(path)
                || "/fonts/"@.is_prefix_of(path) || "/media/"@.is_prefix_of(path);
            &&& is_resource_url(url) == looks
            &&& is_resource_url(url + "?"@ + query) == looks
        }),
{
    reveal_strlit(".");
    reveal_strlit("?");
    assert("."@ =~= seq!['.']);
    assert("?"@ =~= seq!['?']);
    let path = stem + "."@ + ext;
    let n = stem.len() as int;
    assert(path[0] == '/');
    assert(!path.contains('?')) by {
        if path.contains('?') {
            let j = choose|j: int| 0 <= j < path.len() && path[j] == '?';
            if j < n {
                assert(stem[j] == '?');
            } else if j > n {
                assert(ext[j - n - 1] == '?');
            }
        }
    }
    text::law_cut(path, '?', query);
    let url = scheme + "://"@ + authority + path;
    rewrite::law_path_of_address(scheme, authority, path);
    rewrite::law_path_of_address(scheme, authority, path + "?"@ + query);
    assert(url + "?"@ + query =~= scheme + "://"@ + authority + (path + "?"@ + query));
    text::law_behind_last(stem, '.', ext);
    lemma_resource_extensions(text::lowered(ext));
}

/// Whether a text begins with one of some others.
pub open spec fn begins_with_any(s: Seq<char>, list: Seq<Seq<char>>) -> bool {
    exists|i: int| 0 <= i < list.len() && (#[trigger] list[i]).is_prefix_of(s)
}

/// Whether a text holds one of some others.
pub open spec fn holds_any(s: Seq<char>, list: Seq<Seq<char>>) -> bool {
    exists|i: int| 0 <= i < list.len() && text::has(s, #[trigger] list[i])
}

/// The content types of static resources, of texts that may hold links, and of what is not kept,
/// whatever their case.
pub proof fn law_content_types(kind: Seq<char>)
    ensures
        ({
            let low = text::lowered(kind);
            &&& is_static_type(kind) <==> begins_with_any(
                low,
                seq!["image/"@, "font/"@, "audio/"@, "video/"@],
            ) || holds_any(
                low,
                seq!["text/css"@, "javascript"@, "ecmascript"@, "font-woff"@, "x-icon"@],
            )
            &&& is_text_type(kind) <==> holds_any(
                low,
                seq![
                    "json"@,
                    "text"@,
                    "html"@,
                    "xml"@,
                    "javascript"@,
                    "css"@,
                    "x-www-form-urlencoded"@,
                    "svg"@,
                ],
            )
            &&& is_kept_type(kind) <==> !holds_any(low, seq!["text/html"@, "application/json"@])
        }),
{
    let low = text::lowered(kind);
    let a = seq!["image/"@, "font/"@, "audio/"@, "video/"@];
    let b = seq!["text/css"@, "javascript"@, "ecmascript"@, "font-woff"@, "x-icon"@];
    let c = seq![
        "json"@,
        "text"@,
        "html"@,
        "xml"@,
        "javascript"@,
        "css"@,
        "x-www-form-urlencoded"@,
        "svg"@,
    ];
    let d = seq!["text/html"@, "application/json"@];
    assert(a[0] == "image/"@ && a[1] == "font/"@ && a[2] == "audio/"@ && a[3] == "video/"@);
    assert(b[0] == "text/css"@ && b[1] == "javascript"@ && b[2] == "ecmascript"@);
    assert(b[3] == "font-woff"@ && b[4] == "x-icon"@);
    assert(c[0] == "json"@ && c[1] == "text"@ && c[2] == "html"@ && c[3] == "xml"@);
    assert(c[4] == "javascript"@ && c[5] == "css"@ && c[6] == "x-www-form-urlencoded"@);
    assert(c[7] == "svg"@);
    assert(d[0] == "text/html"@ && d[1] == "application/json"@);
}

/// The resources among some links are those that look like one, in their order; and those of a
/// response are among its links, each once, where it is a text.
pub proof fn law_resources_are_picked(
    links: Seq<Seq<char>>,
    s: Seq<char>,
    kind: Seq<char>,
    origin: Seq<char>,
)
    ensures
        resources_among(links) == links.filter(|l: Seq<char>| is_resource_url(l)),
        is_text_type(kind) ==> resources_of(s, kind, origin) == text::unique(
            rewrite::urls_in(s) + rewrite::asset_paths_in(s).map_values(
                |p: Seq<char>| origin + p,
            ),
        ).filter(|l: Seq<char>| is_resource_url(l)),
        !is_text_type(kind) ==> resources_of(s, kind, origin).len() == 0,
{
    lemma_resources_among(links);
    lemma_resources_among(text::unique(links_in(s, origin)));
}

/// The resources among some links are those that look like one.
proof fn lemma_resources_among(links: Seq<Seq<char>>)
    ensures
        resources_among(links) == links.filter(|l: Seq<char>| is_resource_url(l)),
    decreases links.len(),
{
    reveal(Seq::filter);
    if links.len() > 0 {
        lemma_resources_among(links.drop_last());
    } else {
        assert(resources_among(links) =~= links.filter(|l: Seq<char>| is_resource_url(l)));
    }
}

/// The origin of a URL is its scheme and authority, with neither path nor query; what has no
/// scheme has none.
pub proof fn law_origin_of_url(scheme: Seq<char>, authority: Seq<char>, rest: Seq<char>)
    requires
        http_util::is_scheme(scheme),
        !authority.contains('/'),
        !authority.contains('?'),
    ensures
        origin_of_url(scheme + "://"@ + authority) == Some(scheme + "://"@ + authority),
        origin_of_url(scheme + "://"@ + (authority + "/"@ + rest)) == Some(
            scheme + "://"@ + authority,
        ),
        origin_of_url(scheme + "://"@ + (authority + "?"@ + rest)) == Some(
            scheme + "://"@ + authority,
        ),
        !text::has(rest, "://"@) ==> origin_of_url(rest) is None,
{
    lemma_scheme_is_cut(scheme, authority);
    lemma_scheme_is_cut(scheme, authority + "/"@ + rest);
    lemma_scheme_is_cut(scheme, authority + "?"@ + rest);
    text::lemma_found_iff_has(rest, "://"@);
    reveal_strlit("/");
    reveal_strlit("?");
    let n = authority.len() as int;
    let a = authority + "/"@ + rest;
    let b = authority + "?"@ + rest;
    assert forall|j: int| 0 <= j < n implies authority[j] != '/' && authority[j] != '?' by {
        assert(authority.contains(authority[j]));
    }
    assert(a[n] == '/' && b[n] == '?');
    text::lemma_upto(authority, '/', '?');
    text::lemma_upto_is(a, '/', '?', n);
    text::lemma_upto_is(b, '/', '?', n);
    assert(authority.take(n) =~= authority);
    assert(a.take(n) =~= authority);
    assert(b.take(n) =~= authority);
}

/// A URL is cut behind its scheme.
proof fn lemma_scheme_is_cut(scheme: Seq<char>, rest: Seq<char>)
    requires
        http_util::is_scheme(scheme),
    ensures
        text::cut_text(scheme + "://"@ + rest, "://"@) == Some((scheme, rest)),
{
    let url = scheme + "://"@ + rest;
    reveal_strlit("http");
    reveal_strlit("https");
    reveal_strlit("://");
    assert(text::lowered(scheme).len() == scheme.len());
    assert forall|j: int| 0 <= j < scheme.len() implies !text::occurs_at(url, "://"@, j) by {
        assert(url[j] == scheme[j]);
        if text::occurs_at(url, "://"@, j) {
            assert(url.subrange(j, j + 3)[0] == ':');
            assert(text::lowered(scheme)[j] == ':');
        }
    }
    text::law_cut_text(scheme, "://"@, rest);
}

/// The path of a resource whose segments are proper file names is kept on disk as it is; the root
/// has the name `index`.
pub proof fn law_proper_paths_are_kept(parts: Seq<Seq<char>>)
    requires
        parts.len() > 0,
        forall|i: int| 0 <= i < parts.len() ==> is_file_name(#[trigger] parts[i]),
    ensures
        resource_path("/"@ + text::joined(parts, seq!['/'])) == text::joined(parts, seq!['/']),
        resource_path("/"@) == "index"@,
{
    reveal_strlit("/");
    assert("/"@ =~= seq!['/']);
    let r = text::joined(parts, seq!['/']);
    assert forall|i: int| 0 <= i < parts.len() implies !(#[trigger] parts[i]).contains('/')
        && parts[i].len() > 0 by {
        assert(is_file_name(parts[i]));
        if parts[i].contains('/') {
            let k = choose|k: int| 0 <= k < parts[i].len() && parts[i][k] == '/';
            assert(is_safe(parts[i][k]));
        }
    }
    text::lemma_split_joined(parts, '/');
    assert(is_file_name(parts[0]));
    lemma_joined_begins(parts);
    text::law_without("/"@, r, '/');
    assert forall|i: int| 0 <= i < parts.len() implies segment_name(#[trigger] parts[i])
        == parts[i] by {
        assert(is_file_name(parts[i]));
        lemma_file_name_stays(parts[i]);
    }
    assert(parts.map_values(|s: Seq<char>| segment_name(s)) =~= parts);
    lemma_nonempty(parts);
    let none = Seq::<char>::empty();
    text::law_without("/"@, none, '/');
    assert("/"@ + none =~= "/"@);
    text::law_split(none, '/', none);
    let names = text::split(none, '/').map_values(|s: Seq<char>| segment_name(s));
    assert(sanitized(none) =~= none);
    assert(text::before(none, '.', '.').len() == 0) by {
        text::lemma_upto(none, '.', '.');
    }
    reveal_strlit("con");
    reveal_strlit("prn");
    reveal_strlit("aux");
    reveal_strlit("nul");
    assert(text::lowered(text::before(none, '.', '.')).len() == 0);
    assert("con"@.len() == 3 && "prn"@.len() == 3 && "aux"@.len() == 3 && "nul"@.len() == 3);
    assert(segment_name(none) =~= none);
    assert(names =~= seq![none]);
    reveal_with_fuel(text::nonempty, 2);
    assert(names.drop_last() =~= Seq::<Seq<char>>::empty());
    assert(text::nonempty(names).len() == 0);
}

/// In a segment that neither begins with a dot nor ends in a dot or a space, every character that
/// is safe is kept and every other becomes an underscore; only the name of a device gets one more
/// in front.
pub proof fn law_unsafe_characters_are_replaced(s: Seq<char>, i: int)
    requires
        0 <= i < s.len(),
        s[0] != '.',
        s.last() != '.',
        s.last() != ' ',
    ensures
        ({
            let name = segment_name(s);
            let at = name.len() - s.len();
            &&& at == 0 || at == 1 && name[0] == '_'
            &&& name[at + i] == if text::is_alphanumeric(s[i]) || s[i] == '.' || s[i] == '_' || s[i]
                == '-' {
                s[i]
            } else {
                '_'
            }
        }),
{
    lemma_without_dots_and_spaces(s);
    lemma_without_leading(sanitized(s), '.');
    reveal_strlit("_");
}

/// The names of devices are those of the console, the printer, the auxiliary and the null device,
/// and those of nine ports of either kind, in whatever case and with whatever extension.
pub proof fn law_device_names(stem: Seq<char>, ext: Seq<char>)
    requires
        !stem.contains('.'),
    ensures
        ({
            let low = text::lowered(stem);
            let device = seq!["con"@, "prn"@, "aux"@, "nul"@].contains(low) || exists|d: char|
                '1' <= d <= '9' && (low == #[trigger] ("com"@ + seq![d]) || low == "lpt"@ + seq![d]);
            &&& is_device_name(stem) <==> device
            &&& is_device_name(stem + "."@ + ext) <==> device
        }),
{
    reveal_strlit(".");
    assert("."@ =~= seq!['.']);
    reveal_strlit("com");
    reveal_strlit("lpt");
    text::law_cut(stem, '.', ext);
    let low = text::lowered(stem);
    let l = seq!["con"@, "prn"@, "aux"@, "nul"@];
    assert(l[0] == "con"@ && l[1] == "prn"@ && l[2] == "aux"@ && l[3] == "nul"@);
    if low.len() == 4 && '1' <= low[3] <= '9' {
        let d = low[3];
        if "com"@.is_prefix_of(low) {
            assert(low =~= "com"@ + seq![d]);
        }
        if "lpt"@.is_prefix_of(low) {
            assert(low =~= "lpt"@ + seq![d]);
            assert(low == "lpt"@ + seq![d] && ("com"@ + seq![d]).len() == 4);
        }
    }
    if exists|d: char|
        '1' <= d <= '9' && (low == #[trigger] ("com"@ + seq![d]) || low == "lpt"@ + seq![d]) {
        let d = choose|d: char|
            '1' <= d <= '9' && (low == #[trigger] ("com"@ + seq![d]) || low == "lpt"@ + seq![d]);
        assert(low[3] == d);
        assert("com"@.is_prefix_of("com"@ + seq![d]));
        assert("lpt"@.is_prefix_of("lpt"@ + seq![d]));
    }
}

/// The entry for a resource says what it is: the digest of its content, which names its file, its
/// origin, the path of its URL, its content type and its length.
pub proof fn law_entry_says_what_is_kept(
    data: Seq<u8>,
    origin: Seq<char>,
    path: Seq<char>,
    kind: Seq<char>,
)
    requires
        path.len() > 0,
        path[0] == '/',
        data.len() <= usize::MAX,
    ensures
        ({
            let e = entry_for(data, origin, path, kind);
            let hash = codec::hex_text(codec::sha256(data));
            &&& e.hash == hash
            &&& e.origin == origin
            &&& e.url_path == Some(path)
            &&& e.path == resource_path(path)
            &&& e.content_type == kind
            &&& e.size == data.len()
            &&& blob_path(e.hash) == "blobs/"@ + hash
            &&& copy_path(e.origin, e.path) == store::origin_dir(origin) + "/"@ + e.path
        }),
{
}

/// Only what arrived in full is kept: an empty body, an answer with another status, a page and an
/// answer of an interface are not; everything else is.
pub proof fn law_what_is_downloaded(status: u16, kind: Seq<char>, len: nat)
    ensures
        ({
            let low = text::lowered(kind);
            is_kept_download(status, kind, len) <==> status == 200 && len != 0 && !text::has(
                low,
                "text/html"@,
            ) && !text::has(low, "application/json"@)
        }),
{
}

} // verus!
