//! Serving files from the configured directory.
//!
//! Resolving a request touches the file system several times (canonicalising paths,
//! testing for directories and files, listing and opening). The decisions between those
//! steps are made here by [`FileServer`]: it asks for one file-system operation at a time
//! and is told its outcome.
use vstd::prelude::*;
use crate::config::RouterPreset;
use crate::http::request::header_texts;
use crate::http::response::{Body, Response, guessed_mime, occurs_at};
use crate::utils::templates::{encode_safe, error_page, escape_safe, indexing_page, render_indexing};

verus! {

/// A text without its leading `/` characters.
pub open spec fn trim_leading_slashes(s: Seq<char>) -> Seq<char>
    decreases s.len(),
{
    if s.len() > 0 && s[0] == '/' {
        trim_leading_slashes(s.drop_first())
    } else {
        s
    }
}

/// `rel` appended to `base` as `PathBuf::join` does on Unix: an absolute `rel` replaces
/// `base`, otherwise a `/` separates them unless `base` is empty or already ends in one.
pub open spec fn join_path(base: Seq<char>, rel: Seq<char>) -> Seq<char> {
    if rel.len() > 0 && rel[0] == '/' {
        rel
    } else if base.len() == 0 || base.last() == '/' {
        base + rel
    } else {
        base + seq!['/'] + rel
    }
}

/// `path` lies inside `base`: it is `base` or continues it after a `/`. For canonical
/// paths (absolute, without `.`, `..`, repeated or trailing separators) this is
/// `Path::starts_with`, which compares whole components.
pub open spec fn is_within(path: Seq<char>, base: Seq<char>) -> bool {
    ||| path == base
    ||| {
        &&& path.len() > base.len()
        &&& path.subrange(0, base.len() as int) == base
        &&& (base.len() > 0 && base.last() == '/' || path[base.len() as int] == '/')
    }
}

/// The name of the file served for a directory.
pub open spec fn index_name() -> Seq<char> {
    seq!['i', 'n', 'd', 'e', 'x', '.', 'h', 't', 'm', 'l']
}

/// Removes the leading `/` characters of a request path.
pub fn trim_start_slashes(s: &str) -> (r: String)
    ensures
        r@ == trim_leading_slashes(s@),
{
    let n = s.unicode_len();
    let mut i: usize = 0;
    assert(s@.subrange(0, n as int) =~= s@);
    while i < n && s.get_char(i) == '/'
        invariant
            n == s@.len(),
            i <= n,
            trim_leading_slashes(s@) == trim_leading_slashes(s@.subrange(i as int, n as int)),
        decreases n - i,
    {
        assert(s@.subrange(i as int, n as int).drop_first() =~= s@.subrange(i + 1, n as int));
        i = i + 1;
    }
    s.substring_char(i, n).to_owned()
}

/// Joins a relative path onto a base path.
pub fn join(base: &str, rel: &str) -> (r: String)
    ensures
        r@ == join_path(base@, rel@),
{
    let bn = base.unicode_len();
    let rn = rel.unicode_len();
    if rn > 0 && rel.get_char(0) == '/' {
        rel.to_owned()
    } else if bn == 0 || base.get_char(bn - 1) == '/' {
        let mut r = base.to_owned();
        r.append(rel);
        r
    } else {
        let mut r = base.to_owned();
        r.append("/");
        proof {
            reveal_strlit("/");
        }
        r.append(rel);
        r
    }
}

/// Whether `path` lies inside `base` (see [`is_within`]).
pub fn path_within(path: &str, base: &str) -> (r: bool)
    ensures
        r == is_within(path@, base@),
{
    let pn = path.unicode_len();
    let bn = base.unicode_len();
    if pn < bn {
        return false;
    }
    let mut i: usize = 0;
    while i < bn
        invariant
            pn == path@.len(),
            bn == base@.len(),
            bn <= pn,
            i <= bn,
            forall|j: int| 0 <= j < i ==> path@[j] == base@[j],
        decreases bn - i,
    {
        if path.get_char(i) != base.get_char(i) {
            assert(path@.subrange(0, bn as int)[i as int] != base@[i as int]);
            return false;
        }
        i = i + 1;
    }
    assert(path@.subrange(0, bn as int) =~= base@);
    if pn == bn {
        assert(path@ =~= base@);
        return true;
    }
    (bn > 0 && base.get_char(bn - 1) == '/') || path.get_char(bn) == '/'
}

/// The answer chosen for a request.
pub enum Reply {
    /// `403 Forbidden`.
    Forbidden,
    /// `404 Not Found`.
    NotFound,
    /// `301 Moved Permanently` to this location.
    Redirect(String),
    /// `200 OK` with this HTML body.
    Html(Vec<u8>),
    /// `200 OK` streaming the file opened at this path, of this length.
    File(String, u64),
}

/// The next file-system operation the server needs, or the end of the exchange.
pub enum ServeAction {
    /// Canonicalise this path and report `Canonical`.
    Canonicalize(String),
    /// Report with `Flag` whether this path is a directory.
    IsDir(String),
    /// Report with `Flag` whether this path exists.
    Exists(String),
    /// Report with `Entries` the entries of this directory (name, is a directory),
    /// leaving out names that start with `.`.
    ListDir(String),
    /// Open this file and report its length with `Opened`.
    Open(String),
    /// Answer the request.
    Respond(Reply),
    /// Give up and report the I/O error of the last operation.
    Fail,
}

/// The outcome of the operation the server asked for.
pub enum ServeEvent {
    /// The canonical path, or `None` when canonicalisation failed.
    Canonical(Option<String>),
    /// The answer to `IsDir` or `Exists`.
    Flag(bool),
    /// The directory entries, or `None` when listing failed.
    Entries(Option<Vec<(String, bool)>>),
    /// The length of the opened file, or `None` when opening failed.
    Opened(Option<u64>),
}

/// Where the exchange stands.
pub enum ServeState {
    /// Waiting for the canonical serving directory.
    ResolvingBase,
    /// Waiting for the canonical requested path; holds the base.
    ResolvingTarget(String),
    /// Waiting to know whether the target is a directory; holds base and target.
    CheckingDir(String, String),
    /// Waiting to know whether the directory holds `index.html`; holds base and directory.
    CheckingIndex(String, String),
    /// Waiting for the entries of the directory; holds base and directory.
    Listing(String, String),
    /// Waiting to know whether the root `index.html` exists; holds the base.
    CheckingFallback(String),
    /// Waiting for the file to open; holds base and path.
    Opening(String, String),
    /// The exchange is over.
    Finished,
}

/// Mathematical forms of the exchange's values, with texts as character sequences.
pub enum ReplyView {
    Forbidden,
    NotFound,
    Redirect(Seq<char>),
    Html(Seq<u8>),
    File(Seq<char>, u64),
}

pub enum ActionView {
    Canonicalize(Seq<char>),
    IsDir(Seq<char>),
    Exists(Seq<char>),
    ListDir(Seq<char>),
    Open(Seq<char>),
    Respond(ReplyView),
    Fail,
}

pub enum EventView {
    Canonical(Option<Seq<char>>),
    Flag(bool),
    Entries(Option<Seq<(Seq<char>, bool)>>),
    Opened(Option<u64>),
}

pub enum StateView {
    ResolvingBase,
    ResolvingTarget(Seq<char>),
    CheckingDir(Seq<char>, Seq<char>),
    CheckingIndex(Seq<char>, Seq<char>),
    Listing(Seq<char>, Seq<char>),
    CheckingFallback(Seq<char>),
    Opening(Seq<char>, Seq<char>),
    Finished,
}

impl View for Reply {
    type V = ReplyView;

    open spec fn view(&self) -> ReplyView {
        match self {
            Reply::Forbidden => ReplyView::Forbidden,
            Reply::NotFound => ReplyView::NotFound,
            Reply::Redirect(l) => ReplyView::Redirect(l@),
            Reply::Html(b) => ReplyView::Html(b@),
            Reply::File(p, n) => ReplyView::File(p@, *n),
        }
    }
}

impl View for ServeAction {
    type V = ActionView;

    open spec fn view(&self) -> ActionView {
        match self {
            ServeAction::Canonicalize(p) => ActionView::Canonicalize(p@),
            ServeAction::IsDir(p) => ActionView::IsDir(p@),
            ServeAction::Exists(p) => ActionView::Exists(p@),
            ServeAction::ListDir(p) => ActionView::ListDir(p@),
            ServeAction::Open(p) => ActionView::Open(p@),
            ServeAction::Respond(r) => ActionView::Respond(r@),
            ServeAction::Fail => ActionView::Fail,
        }
    }
}

/// The (name, is a directory) texts of directory entries.
pub open spec fn entry_texts(es: Seq<(String, bool)>) -> Seq<(Seq<char>, bool)> {
    es.map_values(|e: (String, bool)| (e.0@, e.1))
}

impl View for ServeEvent {
    type V = EventView;

    open spec fn view(&self) -> EventView {
        match self {
            ServeEvent::Canonical(p) => EventView::Canonical(
                match p {
                    Some(s) => Some(s@),
                    None => None,
                },
            ),
            ServeEvent::Flag(b) => EventView::Flag(*b),
            ServeEvent::Entries(es) => EventView::Entries(
                match es {
                    Some(v) => Some(entry_texts(v@)),
                    None => None,
                },
            ),
            ServeEvent::Opened(n) => EventView::Opened(*n),
        }
    }
}

impl View for ServeState {
    type V = StateView;

    open spec fn view(&self) -> StateView {
        match self {
            ServeState::ResolvingBase => StateView::ResolvingBase,
            ServeState::ResolvingTarget(b) => StateView::ResolvingTarget(b@),
            ServeState::CheckingDir(b, t) => StateView::CheckingDir(b@, t@),
            ServeState::CheckingIndex(b, d) => StateView::CheckingIndex(b@, d@),
            ServeState::Listing(b, d) => StateView::Listing(b@, d@),
            ServeState::CheckingFallback(b) => StateView::CheckingFallback(b@),
            ServeState::Opening(b, p) => StateView::Opening(b@, p@),
            ServeState::Finished => StateView::Finished,
        }
    }
}

/// The list items of a directory listing: a link to the parent unless the listed path
/// is `/`, then one link per entry, directories marked with a trailing `/`.
pub open spec fn listing_items(display_path: Seq<char>, entries: Seq<(Seq<char>, bool)>) -> Seq<char> {
    (if display_path == seq!['/'] {
        Seq::empty()
    } else {
        "<li><a href=\"..\">..</a></li>"@
    }) + entry_items(entries)
}

/// The link shown for an entry: its name, with `/` appended for a directory.
pub open spec fn entry_href(e: (Seq<char>, bool)) -> Seq<char> {
    if e.1 {
        e.0 + seq!['/']
    } else {
        e.0
    }
}

/// Whether an entry is hidden from listings (its name starts with `.`).
pub open spec fn is_hidden(name: Seq<char>) -> bool {
    name.len() > 0 && name[0] == '.'
}

/// The list items of the visible entries, in order.
pub open spec fn entry_items(entries: Seq<(Seq<char>, bool)>) -> Seq<char>
    decreases entries.len(),
{
    if entries.len() == 0 {
        Seq::empty()
    } else {
        let e = entries.last();
        entry_items(entries.drop_last()) + if is_hidden(e.0) {
            Seq::empty()
        } else {
            "<li><a href=\""@ + escape_safe(entry_href(e)) + "\">"@ + escape_safe(entry_href(e))
                + "</a></li>"@
        }
    }
}

/// The list item that links to a directory entry.
pub open spec fn list_item(e: (Seq<char>, bool)) -> Seq<char> {
    "<li><a href=\""@ + escape_safe(entry_href(e)) + "\">"@ + escape_safe(entry_href(e)) + "</a></li>"@
}

/// The listing holds the item of entry `e` somewhere.
pub open spec fn lists(items: Seq<char>, e: (Seq<char>, bool)) -> bool {
    exists|off: int| occurs_at(items, list_item(e), off)
}

/// The listing holds the item of `e` before, and apart from, the item of `f`.
pub open spec fn lists_before(items: Seq<char>, e: (Seq<char>, bool), f: (Seq<char>, bool)) -> bool {
    exists|a: int, b: int|
        occurs_at(items, list_item(e), a) && occurs_at(items, list_item(f), b) && a + list_item(e).len() <= b
}

/// The items of the first `k` entries begin the items of all of them.
proof fn lemma_items_prefix(es: Seq<(Seq<char>, bool)>, k: int)
    requires
        0 <= k <= es.len(),
    ensures
        occurs_at(entry_items(es), entry_items(es.take(k)), 0),
    decreases es.len(),
{
    if k == es.len() {
        assert(es.take(k) =~= es);
        assert(entry_items(es).subrange(0, entry_items(es).len() as int) =~= entry_items(es));
    } else {
        let init = es.drop_last();
        assert(es.take(k) =~= init.take(k));
        lemma_items_prefix(init, k);
        let a = entry_items(init);
        let t = entry_items(es.take(k));
        assert(entry_items(es).subrange(0, t.len() as int) =~= a.subrange(0, t.len() as int));
    }
}

/// The items of the first `i + 1` entries: those of the first `i`, then the item of entry `i`
/// unless it is hidden.
proof fn lemma_items_step(es: Seq<(Seq<char>, bool)>, i: int)
    requires
        0 <= i < es.len(),
    ensures
        entry_items(es.take(i + 1)) == entry_items(es.take(i)) + if is_hidden(es[i].0) {
            Seq::<char>::empty()
        } else {
            list_item(es[i])
        },
{
    let t = es.take(i + 1);
    assert(t.drop_last() =~= es.take(i));
    assert(t.last() == es[i]);
}

/// Where the item of visible entry `i` stands in the items of all entries.
proof fn lemma_item_at(es: Seq<(Seq<char>, bool)>, i: int)
    requires
        0 <= i < es.len(),
        !is_hidden(es[i].0),
    ensures
        occurs_at(entry_items(es), list_item(es[i]), entry_items(es.take(i)).len() as int),
        entry_items(es.take(i)).len() + list_item(es[i]).len() == entry_items(es.take(i + 1)).len(),
{
    lemma_items_step(es, i);
    lemma_items_prefix(es, i + 1);
    let p = entry_items(es.take(i));
    let t = entry_items(es.take(i + 1));
    let all = entry_items(es);
    let item = list_item(es[i]);
    assert(all.subrange(p.len() as int, (p.len() + item.len()) as int) =~= t.subrange(p.len() as int, t.len() as int));
    assert(t.subrange(p.len() as int, t.len() as int) =~= item);
}

/// Law: a directory listing links every entry whose name does not start with `.`, each
/// by an item `<li><a href="…">…</a></li>` that holds the escaped name (with `/` after a
/// directory), in the order of the entries; it starts with the link to the parent
/// unless the listed path is `/`.
pub proof fn listing_shows_every_visible_entry(display_path: Seq<char>, es: Seq<(Seq<char>, bool)>)
    ensures
        ({
            let items = listing_items(display_path, es);
            &&& display_path != seq!['/'] ==> occurs_at(items, "<li><a href=\"..\">..</a></li>"@, 0)
            &&& forall|i: int| 0 <= i < es.len() && !is_hidden(es[i].0) ==> lists(items, #[trigger] es[i])
            &&& forall|i: int, j: int|
                0 <= i < j < es.len() && !is_hidden(es[i].0) && !is_hidden(es[j].0) ==> lists_before(
                    items,
                    #[trigger] es[i],
                    #[trigger] es[j],
                )
        }),
{
    let items = listing_items(display_path, es);
    let parent = if display_path == seq!['/'] {
        Seq::<char>::empty()
    } else {
        "<li><a href=\"..\">..</a></li>"@
    };
    let all = entry_items(es);
    assert(items == parent + all);
    assert(items.subrange(0, parent.len() as int) =~= parent);
    assert forall|i: int| 0 <= i < es.len() && !is_hidden(es[i].0) implies lists(items, #[trigger] es[i]) by {
        lemma_item_at(es, i);
        let o = entry_items(es.take(i)).len() as int;
        assert(items.subrange(parent.len() + o, parent.len() + o + list_item(es[i]).len())
            =~= all.subrange(o, o + list_item(es[i]).len()));
        assert(occurs_at(items, list_item(es[i]), parent.len() + o));
    }
    assert forall|i: int, j: int|
        0 <= i < j < es.len() && !is_hidden(es[i].0) && !is_hidden(es[j].0) implies lists_before(
            items,
            #[trigger] es[i],
            #[trigger] es[j],
        ) by {
        lemma_item_at(es, i);
        lemma_item_at(es, j);
        let oi = entry_items(es.take(i)).len() as int;
        let oj = entry_items(es.take(j)).len() as int;
        let tj = es.take(j);
        assert(tj.take(i + 1) =~= es.take(i + 1));
        lemma_items_prefix(tj, i + 1);
        assert(items.subrange(parent.len() + oi, parent.len() + oi + list_item(es[i]).len())
            =~= all.subrange(oi, oi + list_item(es[i]).len()));
        assert(items.subrange(parent.len() + oj, parent.len() + oj + list_item(es[j]).len())
            =~= all.subrange(oj, oj + list_item(es[j]).len()));
        assert(occurs_at(items, list_item(es[i]), parent.len() + oi));
        assert(occurs_at(items, list_item(es[j]), parent.len() + oj));
    }
}

/// Whether a directory entry is hidden from listings.
pub fn hidden_name(name: &str) -> (r: bool)
    ensures
        r == is_hidden(name@),
{
    name.unicode_len() > 0 && name.get_char(0) == '.'
}

/// The HTML directory listing for the request path `display_path`.
pub fn render_listing(display_path: &str, entries: &Vec<(String, bool)>) -> (r: Vec<u8>)
    ensures
        r@ == indexing_page(display_path@, listing_items(display_path@, entry_texts(entries@))),
{
    let ghost es = entry_texts(entries@);
    let root = display_path.unicode_len() == 1 && display_path.get_char(0) == '/';
    assert(root == (display_path@ == seq!['/'])) by {
        if display_path@.len() == 1 && display_path@[0] == '/' {
            assert(display_path@ =~= seq!['/']);
        }
    }
    let mut html = String::new();
    if !root {
        html.append("<li><a href=\"..\">..</a></li>");
    }
    let ghost prefix = html@;
    let n = entries.len();
    let mut i: usize = 0;
    assert(es.take(0) =~= Seq::<(Seq<char>, bool)>::empty());
    while i < n
        invariant
            n == entries@.len(),
            es == entry_texts(entries@),
            i <= n,
            html@ == prefix + entry_items(es.take(i as int)),
        decreases n - i,
    {
        let name = entries[i].0.as_str();
        let ghost e = es[i as int];
        assert(e == (entries@[i as int].0@, entries@[i as int].1));
        if !hidden_name(name) {
            let mut href = name.to_owned();
            if entries[i].1 {
                href.append("/");
                proof {
                    reveal_strlit("/");
                    assert("/"@ =~= seq!['/']);
                }
            }
            assert(href@ == entry_href(e));
            let safe = encode_safe(href.as_str());
            html.append("<li><a href=\"");
            html.append(safe.as_str());
            html.append("\">");
            html.append(safe.as_str());
            html.append("</a></li>");
        }
        assert(es.take(i + 1).drop_last() =~= es.take(i as int));
        i = i + 1;
    }
    assert(es.take(n as int) =~= es);
    render_indexing(display_path, html.as_str())
}

impl Reply {
    /// The response that carries this reply.
    pub fn into_response(self) -> (r: Response)
        ensures
            match self@ {
                ReplyView::Forbidden => {
                    &&& r.status@ == "403"@ + " "@ + "Forbidden"@
                    &&& r.content_type@ == "text/html"@
                    &&& r.headers@.len() == 0
                    &&& r.body matches Body::Bytes(b) && b@ == error_page("403"@, "Forbidden"@)
                        && r.content_length == b@.len()
                },
                ReplyView::NotFound => {
                    &&& r.status@ == "404"@ + " "@ + "Not Found"@
                    &&& r.content_type@ == "text/html"@
                    &&& r.headers@.len() == 0
                    &&& r.body matches Body::Bytes(b) && b@ == error_page("404"@, "Not Found"@)
                        && r.content_length == b@.len()
                },
                ReplyView::Redirect(l) => {
                    &&& r.status@ == "301 Moved Permanently"@
                    &&& r.content_type@ == "text/html"@
                    &&& r.content_length == 0
                    &&& r.headers@.len() == 1
                    &&& r.headers@[0].0@ == "Location"@
                    &&& r.headers@[0].1@ == l
                    &&& r.body matches Body::Bytes(b) && b@.len() == 0
                },
                ReplyView::Html(body) => {
                    &&& r.status@ == "200 OK"@
                    &&& r.content_type@ == "text/html"@
                    &&& r.content_length == body.len()
                    &&& r.headers@.len() == 0
                    &&& r.body matches Body::Bytes(b) && b@ == body
                },
                ReplyView::File(p, n) => {
                    &&& r.status@ == "200 OK"@
                    &&& r.content_type@ == guessed_mime(p)
                    &&& r.content_length == n
                    &&& r.headers@.len() == 0
                    &&& r.body matches Body::File(f) && f@ == p
                },
            },
    {
        match self {
            Reply::Forbidden => {
                let r = Response::error("403", "Forbidden");
                assert(r.status@ == "403"@ + " "@ + "Forbidden"@);
                r
            },
            Reply::NotFound => {
                let r = Response::error("404", "Not Found");
                assert(r.status@ == "404"@ + " "@ + "Not Found"@);
                r
            },
            Reply::Redirect(location) => {
                let r = Response::redirect("301 Moved Permanently", location.as_str());
                assert(header_texts(r.headers@).len() == 1);
                assert(r.headers@.len() == 1);
                assert(header_texts(r.headers@)[0] == (r.headers@[0].0@, r.headers@[0].1@));
                r
            },
            Reply::Html(body) => {
                let r = Response::new_html("200 OK", body);
                r
            },
            Reply::File(path, len) => {
                let r = Response::file(path.as_str(), len);
                r
            },
        }
    }
}

/// A request for a file: the request path, the serving directory, the router preset and
/// whether directories may be listed.
pub struct FileServer {
    pub file_path: String,
    pub serving_dir: String,
    pub logic: RouterPreset,
    pub index: bool,
    pub state: ServeState,
}

/// One step of serving: from a state and the outcome of the last operation to the next
/// state and the next action.
pub open spec fn serve_next(
    file_path: Seq<char>,
    logic: RouterPreset,
    index: bool,
    s: StateView,
    e: EventView,
) -> (StateView, ActionView) {
    match (s, e) {
        (StateView::ResolvingBase, EventView::Canonical(Some(base))) => (
            StateView::ResolvingTarget(base),
            ActionView::Canonicalize(join_path(base, trim_leading_slashes(file_path))),
        ),
        (StateView::ResolvingTarget(base), EventView::Canonical(Some(target))) => if is_within(
            target,
            base,
        ) {
            (StateView::CheckingDir(base, target), ActionView::IsDir(target))
        } else {
            (StateView::Finished, ActionView::Respond(ReplyView::Forbidden))
        },
        (StateView::ResolvingTarget(base), EventView::Canonical(None)) => if logic
            == RouterPreset::Spa {
            (StateView::CheckingFallback(base), ActionView::Exists(join_path(base, index_name())))
        } else {
            (StateView::Finished, ActionView::Respond(ReplyView::NotFound))
        },
        (StateView::CheckingDir(base, target), EventView::Flag(is_dir)) => if !is_dir {
            (StateView::Opening(base, target), ActionView::Open(target))
        } else if logic == RouterPreset::Spa {
            (StateView::CheckingFallback(base), ActionView::Exists(join_path(base, index_name())))
        } else if file_path.len() == 0 || file_path.last() != '/' {
            (StateView::Finished, ActionView::Respond(ReplyView::Redirect(file_path + seq!['/'])))
        } else {
            (StateView::CheckingIndex(base, target), ActionView::Exists(join_path(target, index_name())))
        },
        (StateView::CheckingIndex(base, dir), EventView::Flag(exists)) => if exists {
            (StateView::Opening(base, join_path(dir, index_name())), ActionView::Open(join_path(dir, index_name())))
        } else if index {
            (StateView::Listing(base, dir), ActionView::ListDir(dir))
        } else {
            (StateView::Finished, ActionView::Respond(ReplyView::Forbidden))
        },
        (StateView::Listing(base, dir), EventView::Entries(Some(es))) => (
            StateView::Finished,
            ActionView::Respond(ReplyView::Html(indexing_page(file_path, listing_items(file_path, es)))),
        ),
        (StateView::Listing(base, dir), EventView::Entries(None)) => (
            StateView::Finished,
            ActionView::Respond(ReplyView::Forbidden),
        ),
        (StateView::CheckingFallback(base), EventView::Flag(exists)) => if exists {
            (StateView::Opening(base, join_path(base, index_name())), ActionView::Open(join_path(base, index_name())))
        } else {
            (StateView::Finished, ActionView::Respond(ReplyView::NotFound))
        },
        (StateView::Opening(base, path), EventView::Opened(Some(len))) => (
            StateView::Finished,
            ActionView::Respond(ReplyView::File(path, len)),
        ),
        _ => (StateView::Finished, ActionView::Fail),
    }
}


/// Every path a state holds besides its base lies inside that base.
pub open spec fn paths_within_base(s: StateView) -> bool {
    match s {
        StateView::ResolvingTarget(b) => b.len() > 0,
        StateView::CheckingDir(b, t) => b.len() > 0 && is_within(t, b),
        StateView::CheckingIndex(b, d) => b.len() > 0 && is_within(d, b),
        StateView::Listing(b, d) => b.len() > 0 && is_within(d, b),
        StateView::CheckingFallback(b) => b.len() > 0,
        StateView::Opening(b, p) => b.len() > 0 && is_within(p, b),
        _ => true,
    }
}

/// The serving directory a state has resolved, if any.
pub open spec fn resolved_base(s: StateView) -> Option<Seq<char>> {
    match s {
        StateView::ResolvingTarget(b) => Some(b),
        StateView::CheckingDir(b, _) => Some(b),
        StateView::CheckingIndex(b, _) => Some(b),
        StateView::Listing(b, _) => Some(b),
        StateView::CheckingFallback(b) => Some(b),
        StateView::Opening(b, _) => Some(b),
        _ => None,
    }
}

/// The path an action inspects, lists or opens, if any.
pub open spec fn touched_path(a: ActionView) -> Option<Seq<char>> {
    match a {
        ActionView::IsDir(p) => Some(p),
        ActionView::Exists(p) => Some(p),
        ActionView::ListDir(p) => Some(p),
        ActionView::Open(p) => Some(p),
        _ => None,
    }
}

/// An event that canonicalisation could produce: canonical paths are never empty.
pub open spec fn plausible_event(e: EventView) -> bool {
    e matches EventView::Canonical(Some(p)) ==> p.len() > 0
}

/// `index.html` joined onto a path inside `base` stays inside `base`.
proof fn lemma_join_index_within(d: Seq<char>, b: Seq<char>)
    requires
        b.len() > 0,
        is_within(d, b),
    ensures
        is_within(join_path(d, index_name()), b),
{
    let j = join_path(d, index_name());
    assert(index_name()[0] == 'i');
    if d.len() > 0 && d.last() == '/' {
        assert(j == d + index_name());
    } else {
        assert(j == d + seq!['/'] + index_name());
    }
    assert(j.subrange(0, d.len() as int) =~= d);
    assert(j.subrange(0, b.len() as int) =~= d.subrange(0, b.len() as int));
    if d == b {
        if !(b.last() == '/') {
            assert(j[b.len() as int] == '/');
        }
    } else {
        assert(j[b.len() as int] == d[b.len() as int]);
    }
}

/// Law: once the serving directory is resolved, every path the server inspects, lists
/// or opens lies inside it. A requested path that canonicalises to somewhere else is
/// answered `403 Forbidden` without touching it.
pub proof fn serving_stays_inside_root(
    file_path: Seq<char>,
    logic: RouterPreset,
    index: bool,
    s: StateView,
    e: EventView,
)
    requires
        paths_within_base(s),
        plausible_event(e),
    ensures
        ({
            let (s2, a) = serve_next(file_path, logic, index, s, e);
            &&& paths_within_base(s2)
            &&& touched_path(a) matches Some(p) ==> resolved_base(s2) matches Some(b) && is_within(p, b)
        }),
{
    match (s, e) {
        (StateView::ResolvingTarget(b), EventView::Canonical(None)) => {
            lemma_join_index_within(b, b);
        },
        (StateView::CheckingDir(b, t), EventView::Flag(_)) => {
            lemma_join_index_within(b, b);
            lemma_join_index_within(t, b);
        },
        (StateView::CheckingIndex(b, d), EventView::Flag(_)) => {
            lemma_join_index_within(d, b);
        },
        (StateView::CheckingFallback(b), EventView::Flag(_)) => {
            lemma_join_index_within(b, b);
        },
        _ => {},
    }
}

/// A whole exchange from state `s`, fed `events` in order: the state after the last
/// event, and the action answered to each event.
pub open spec fn serve_run(
    file_path: Seq<char>,
    logic: RouterPreset,
    index: bool,
    s: StateView,
    events: Seq<EventView>,
) -> (StateView, Seq<ActionView>)
    decreases events.len(),
{
    if events.len() == 0 {
        (s, Seq::empty())
    } else {
        let (s1, a) = serve_next(file_path, logic, index, s, events[0]);
        let (s2, rest) = serve_run(file_path, logic, index, s1, events.drop_first());
        (s2, seq![a] + rest)
    }
}

/// Once an exchange is over, every later event is answered `Fail`.
proof fn lemma_run_finished(
    file_path: Seq<char>,
    logic: RouterPreset,
    index: bool,
    events: Seq<EventView>,
)
    ensures
        ({
            let (sf, acts) = serve_run(file_path, logic, index, StateView::Finished, events);
            &&& sf == StateView::Finished
            &&& acts.len() == events.len()
            &&& forall|i: int| 0 <= i < acts.len() ==> acts[i] == ActionView::Fail
        }),
    decreases events.len(),
{
    if events.len() > 0 {
        lemma_run_finished(file_path, logic, index, events.drop_first());
        let (_, rest) = serve_run(file_path, logic, index, StateView::Finished, events.drop_first());
        let (_, acts) = serve_run(file_path, logic, index, StateView::Finished, events);
        assert(acts == seq![ActionView::Fail] + rest);
    }
}

/// From a state whose resolved base is `base` (or that is over), every action of the rest
/// of the exchange touches only paths inside `base`, and the base stays `base`.
proof fn lemma_run_inside(
    file_path: Seq<char>,
    logic: RouterPreset,
    index: bool,
    base: Seq<char>,
    s: StateView,
    events: Seq<EventView>,
)
    requires
        paths_within_base(s),
        resolved_base(s) == Some(base) || s == StateView::Finished,
        forall|i: int| 0 <= i < events.len() ==> plausible_event(#[trigger] events[i]),
    ensures
        ({
            let (sf, acts) = serve_run(file_path, logic, index, s, events);
            &&& acts.len() == events.len()
            &&& resolved_base(sf) == Some(base) || sf == StateView::Finished
            &&& forall|i: int| 0 <= i < acts.len() ==> (touched_path(#[trigger] acts[i]) matches Some(p)
                ==> is_within(p, base))
        }),
    decreases events.len(),
{
    if events.len() > 0 {
        let e = events[0];
        assert(plausible_event(e));
        serving_stays_inside_root(file_path, logic, index, s, e);
        let (s1, a) = serve_next(file_path, logic, index, s, e);
        assert(resolved_base(s1) == Some(base) || s1 == StateView::Finished);
        let tail = events.drop_first();
        assert forall|i: int| 0 <= i < tail.len() implies plausible_event(#[trigger] tail[i]) by {
            assert(tail[i] == events[i + 1]);
        }
        lemma_run_inside(file_path, logic, index, base, s1, tail);
        let (_, rest) = serve_run(file_path, logic, index, s1, tail);
        let (_, acts) = serve_run(file_path, logic, index, s, events);
        assert(acts == seq![a] + rest);
        assert forall|i: int| 0 <= i < acts.len() implies (touched_path(#[trigger] acts[i]) matches Some(p)
            ==> is_within(p, base)) by {
            if i > 0 {
                assert(acts[i] == rest[i - 1]);
            }
        }
    }
}

/// The event reports a canonical path that lies outside `base`.
pub open spec fn canonical_outside(e: EventView, base: Seq<char>) -> bool {
    match e {
        EventView::Canonical(Some(t)) => !is_within(t, base),
        _ => false,
    }
}

/// Law: over a whole exchange, once the serving directory canonicalises to `base`, every
/// path the server inspects, lists or opens lies inside `base`, whatever the request path,
/// preset and listing flag and whatever the file system answers, and the resolved base
/// stays `base`. A request path that canonicalises outside `base` is answered
/// `403 Forbidden`, and nothing is touched after it.
pub proof fn whole_exchange_stays_inside_root(
    file_path: Seq<char>,
    logic: RouterPreset,
    index: bool,
    base: Seq<char>,
    events: Seq<EventView>,
)
    requires
        events.len() > 0,
        events[0] == EventView::Canonical(Some(base)),
        forall|i: int| 0 <= i < events.len() ==> plausible_event(#[trigger] events[i]),
    ensures
        ({
            let (sf, acts) = serve_run(file_path, logic, index, StateView::ResolvingBase, events);
            &&& acts.len() == events.len()
            &&& resolved_base(sf) == Some(base) || sf == StateView::Finished
            &&& forall|i: int| 0 <= i < acts.len() ==> (touched_path(#[trigger] acts[i]) matches Some(p)
                ==> is_within(p, base))
            &&& (events.len() > 1 && canonical_outside(events[1], base)) ==> acts[1] == ActionView::Respond(ReplyView::Forbidden)
                && forall|j: int| 1 < j < acts.len() ==> #[trigger] acts[j] == ActionView::Fail
        }),
{
    assert(plausible_event(events[0]));
    let tail = events.drop_first();
    assert forall|i: int| 0 <= i < tail.len() implies plausible_event(#[trigger] tail[i]) by {
        assert(tail[i] == events[i + 1]);
    }
    let s1 = StateView::ResolvingTarget(base);
    let a0 = ActionView::Canonicalize(join_path(base, trim_leading_slashes(file_path)));
    assert(serve_next(file_path, logic, index, StateView::ResolvingBase, events[0]) == (s1, a0));
    lemma_run_inside(file_path, logic, index, base, s1, tail);
    let (_, rest) = serve_run(file_path, logic, index, s1, tail);
    let (_, acts) = serve_run(file_path, logic, index, StateView::ResolvingBase, events);
    assert(acts == seq![a0] + rest);
    assert forall|i: int| 0 <= i < acts.len() implies (touched_path(#[trigger] acts[i]) matches Some(p)
        ==> is_within(p, base)) by {
        if i > 0 {
            assert(acts[i] == rest[i - 1]);
        }
    }
    if events.len() > 1 {
        if let EventView::Canonical(Some(t)) = events[1] {
            if !is_within(t, base) {
                assert(tail[0] == events[1]);
                let tail2 = tail.drop_first();
                assert(serve_next(file_path, logic, index, s1, tail[0]) == (
                    StateView::Finished,
                    ActionView::Respond(ReplyView::Forbidden),
                ));
                lemma_run_finished(file_path, logic, index, tail2);
                let (_, rest2) = serve_run(file_path, logic, index, StateView::Finished, tail2);
                assert(rest == seq![ActionView::Respond(ReplyView::Forbidden)] + rest2);
                assert forall|j: int| 1 < j < acts.len() implies #[trigger] acts[j] == ActionView::Fail by {
                    assert(acts[j] == rest[j - 1]);
                    assert(rest[j - 1] == rest2[j - 2]);
                }
            }
        }
    }
}

/// Law: when the request path canonicalises inside the serving directory to something
/// that is not a directory, that canonical path is the one opened and the reply streams
/// it, under either router preset and either listing flag.
pub proof fn file_inside_root_is_served(
    file_path: Seq<char>,
    logic: RouterPreset,
    index: bool,
    base: Seq<char>,
    target: Seq<char>,
    len: u64,
)
    requires
        is_within(target, base),
    ensures
        serve_run(
            file_path,
            logic,
            index,
            StateView::ResolvingBase,
            seq![
                EventView::Canonical(Some(base)),
                EventView::Canonical(Some(target)),
                EventView::Flag(false),
                EventView::Opened(Some(len)),
            ],
        ) == (
            StateView::Finished,
            seq![
                ActionView::Canonicalize(join_path(base, trim_leading_slashes(file_path))),
                ActionView::IsDir(target),
                ActionView::Open(target),
                ActionView::Respond(ReplyView::File(target, len)),
            ],
        ),
{
    let events = seq![
        EventView::Canonical(Some(base)),
        EventView::Canonical(Some(target)),
        EventView::Flag(false),
        EventView::Opened(Some(len)),
    ];
    let s1 = StateView::ResolvingTarget(base);
    let s2 = StateView::CheckingDir(base, target);
    let s3 = StateView::Opening(base, target);
    let e1 = events.drop_first();
    let e2 = e1.drop_first();
    let e3 = e2.drop_first();
    let e4 = e3.drop_first();
    assert(e4.len() == 0);
    assert(serve_run(file_path, logic, index, StateView::Finished, e4) == (StateView::Finished, Seq::<ActionView>::empty()));
    assert(e3[0] == EventView::Opened(Some(len)));
    let r3 = serve_run(file_path, logic, index, s3, e3);
    assert(r3 == (StateView::Finished, seq![ActionView::Respond(ReplyView::File(target, len))]));
    assert(e2[0] == EventView::Flag(false));
    let r2 = serve_run(file_path, logic, index, s2, e2);
    assert(r2 == (StateView::Finished, seq![ActionView::Open(target)] + r3.1));
    assert(e1[0] == EventView::Canonical(Some(target)));
    let r1 = serve_run(file_path, logic, index, s1, e1);
    assert(r1 == (StateView::Finished, seq![ActionView::IsDir(target)] + r2.1));
    assert(events[0] == EventView::Canonical(Some(base)));
    let r0 = serve_run(file_path, logic, index, StateView::ResolvingBase, events);
    assert(r0 == (
        StateView::Finished,
        seq![ActionView::Canonicalize(join_path(base, trim_leading_slashes(file_path)))] + r1.1,
    ));
    assert(r0.1 =~= seq![
        ActionView::Canonicalize(join_path(base, trim_leading_slashes(file_path))),
        ActionView::IsDir(target),
        ActionView::Open(target),
        ActionView::Respond(ReplyView::File(target, len)),
    ]);
}

/// One step of a run: the first event's action, then the run from the state it leads to.
proof fn lemma_run_step(
    file_path: Seq<char>,
    logic: RouterPreset,
    index: bool,
    s: StateView,
    events: Seq<EventView>,
)
    requires
        events.len() > 0,
    ensures
        ({
            let (s1, a) = serve_next(file_path, logic, index, s, events[0]);
            let (sf, rest) = serve_run(file_path, logic, index, s1, events.drop_first());
            serve_run(file_path, logic, index, s, events) == (sf, seq![a] + rest)
        }),
{
}

/// Law: under the static preset, a request for a directory whose path does not end in
/// `/` is redirected to the same path with `/` appended, whatever the listing flag.
pub proof fn static_directory_without_slash_is_redirected(
    file_path: Seq<char>,
    index: bool,
    base: Seq<char>,
    target: Seq<char>,
)
    requires
        is_within(target, base),
        file_path.len() == 0 || file_path.last() != '/',
    ensures
        serve_run(
            file_path,
            RouterPreset::Static,
            index,
            StateView::ResolvingBase,
            seq![EventView::Canonical(Some(base)), EventView::Canonical(Some(target)), EventView::Flag(true)],
        ) == (
            StateView::Finished,
            seq![
                ActionView::Canonicalize(join_path(base, trim_leading_slashes(file_path))),
                ActionView::IsDir(target),
                ActionView::Respond(ReplyView::Redirect(file_path + seq!['/'])),
            ],
        ),
{
    let logic = RouterPreset::Static;
    let events = seq![EventView::Canonical(Some(base)), EventView::Canonical(Some(target)), EventView::Flag(true)];
    let e1 = events.drop_first();
    let e2 = e1.drop_first();
    let e3 = e2.drop_first();
    assert(e3.len() == 0);
    lemma_run_step(file_path, logic, index, StateView::CheckingDir(base, target), e2);
    lemma_run_step(file_path, logic, index, StateView::ResolvingTarget(base), e1);
    lemma_run_step(file_path, logic, index, StateView::ResolvingBase, events);
    assert(serve_run(file_path, logic, index, StateView::ResolvingBase, events).1 =~= seq![
        ActionView::Canonicalize(join_path(base, trim_leading_slashes(file_path))),
        ActionView::IsDir(target),
        ActionView::Respond(ReplyView::Redirect(file_path + seq!['/'])),
    ]);
}

/// Law: under the static preset, a request for a directory whose path ends in `/` and
/// that holds `index.html` is served by opening that `index.html`, whatever the listing
/// flag.
pub proof fn directory_index_is_served(
    file_path: Seq<char>,
    index: bool,
    base: Seq<char>,
    dir: Seq<char>,
    len: u64,
)
    requires
        is_within(dir, base),
        file_path.len() > 0 && file_path.last() == '/',
    ensures
        serve_run(
            file_path,
            RouterPreset::Static,
            index,
            StateView::ResolvingBase,
            seq![
                EventView::Canonical(Some(base)),
                EventView::Canonical(Some(dir)),
                EventView::Flag(true),
                EventView::Flag(true),
                EventView::Opened(Some(len)),
            ],
        ) == (
            StateView::Finished,
            seq![
                ActionView::Canonicalize(join_path(base, trim_leading_slashes(file_path))),
                ActionView::IsDir(dir),
                ActionView::Exists(join_path(dir, "index.html"@)),
                ActionView::Open(join_path(dir, "index.html"@)),
                ActionView::Respond(ReplyView::File(join_path(dir, "index.html"@), len)),
            ],
        ),
{
    reveal_strlit("index.html");
    assert("index.html"@ =~= index_name());
    let logic = RouterPreset::Static;
    let idx = join_path(dir, index_name());
    let events = seq![
        EventView::Canonical(Some(base)),
        EventView::Canonical(Some(dir)),
        EventView::Flag(true),
        EventView::Flag(true),
        EventView::Opened(Some(len)),
    ];
    let e1 = events.drop_first();
    let e2 = e1.drop_first();
    let e3 = e2.drop_first();
    let e4 = e3.drop_first();
    let e5 = e4.drop_first();
    assert(e5.len() == 0);
    lemma_run_step(file_path, logic, index, StateView::Opening(base, idx), e4);
    lemma_run_step(file_path, logic, index, StateView::CheckingIndex(base, dir), e3);
    lemma_run_step(file_path, logic, index, StateView::CheckingDir(base, dir), e2);
    lemma_run_step(file_path, logic, index, StateView::ResolvingTarget(base), e1);
    lemma_run_step(file_path, logic, index, StateView::ResolvingBase, events);
    assert(serve_run(file_path, logic, index, StateView::ResolvingBase, events).1 =~= seq![
        ActionView::Canonicalize(join_path(base, trim_leading_slashes(file_path))),
        ActionView::IsDir(dir),
        ActionView::Exists(idx),
        ActionView::Open(idx),
        ActionView::Respond(ReplyView::File(idx, len)),
    ]);
}

/// Law: under the SPA preset, a request path that does not exist is answered with the
/// serving directory's `index.html` when it exists; under the static preset it is
/// answered `404 Not Found` without touching anything.
pub proof fn missing_path_falls_back_by_preset(
    file_path: Seq<char>,
    index: bool,
    base: Seq<char>,
    len: u64,
)
    ensures
        serve_run(
            file_path,
            RouterPreset::Spa,
            index,
            StateView::ResolvingBase,
            seq![
                EventView::Canonical(Some(base)),
                EventView::Canonical(None),
                EventView::Flag(true),
                EventView::Opened(Some(len)),
            ],
        ) == (
            StateView::Finished,
            seq![
                ActionView::Canonicalize(join_path(base, trim_leading_slashes(file_path))),
                ActionView::Exists(join_path(base, "index.html"@)),
                ActionView::Open(join_path(base, "index.html"@)),
                ActionView::Respond(ReplyView::File(join_path(base, "index.html"@), len)),
            ],
        ),
        serve_run(
            file_path,
            RouterPreset::Static,
            index,
            StateView::ResolvingBase,
            seq![EventView::Canonical(Some(base)), EventView::Canonical(None)],
        ) == (
            StateView::Finished,
            seq![
                ActionView::Canonicalize(join_path(base, trim_leading_slashes(file_path))),
                ActionView::Respond(ReplyView::NotFound),
            ],
        ),
{
    reveal_strlit("index.html");
    assert("index.html"@ =~= index_name());
    let idx = join_path(base, index_name());
    let spa = RouterPreset::Spa;
    let events = seq![
        EventView::Canonical(Some(base)),
        EventView::Canonical(None),
        EventView::Flag(true),
        EventView::Opened(Some(len)),
    ];
    let e1 = events.drop_first();
    let e2 = e1.drop_first();
    let e3 = e2.drop_first();
    let e4 = e3.drop_first();
    assert(e4.len() == 0);
    lemma_run_step(file_path, spa, index, StateView::Opening(base, idx), e3);
    lemma_run_step(file_path, spa, index, StateView::CheckingFallback(base), e2);
    lemma_run_step(file_path, spa, index, StateView::ResolvingTarget(base), e1);
    lemma_run_step(file_path, spa, index, StateView::ResolvingBase, events);
    assert(serve_run(file_path, spa, index, StateView::ResolvingBase, events).1 =~= seq![
        ActionView::Canonicalize(join_path(base, trim_leading_slashes(file_path))),
        ActionView::Exists(idx),
        ActionView::Open(idx),
        ActionView::Respond(ReplyView::File(idx, len)),
    ]);
    let st = RouterPreset::Static;
    let f = seq![EventView::Canonical(Some(base)), EventView::Canonical(None)];
    let f1 = f.drop_first();
    let f2 = f1.drop_first();
    assert(f2.len() == 0);
    lemma_run_step(file_path, st, index, StateView::ResolvingTarget(base), f1);
    lemma_run_step(file_path, st, index, StateView::ResolvingBase, f);
    assert(serve_run(file_path, st, index, StateView::ResolvingBase, f).1 =~= seq![
        ActionView::Canonicalize(join_path(base, trim_leading_slashes(file_path))),
        ActionView::Respond(ReplyView::NotFound),
    ]);
}

/// Law: under the static preset, a directory requested with a trailing `/` that holds no
/// `index.html` is listed (from the entries the file system reports) when listing is
/// enabled, and answered `403 Forbidden` when it is not.
pub proof fn directory_without_index_is_listed_or_forbidden(
    file_path: Seq<char>,
    base: Seq<char>,
    dir: Seq<char>,
    entries: Seq<(Seq<char>, bool)>,
)
    requires
        is_within(dir, base),
        file_path.len() > 0 && file_path.last() == '/',
    ensures
        serve_run(
            file_path,
            RouterPreset::Static,
            true,
            StateView::ResolvingBase,
            seq![
                EventView::Canonical(Some(base)),
                EventView::Canonical(Some(dir)),
                EventView::Flag(true),
                EventView::Flag(false),
                EventView::Entries(Some(entries)),
            ],
        ).1 == seq![
            ActionView::Canonicalize(join_path(base, trim_leading_slashes(file_path))),
            ActionView::IsDir(dir),
            ActionView::Exists(join_path(dir, "index.html"@)),
            ActionView::ListDir(dir),
            ActionView::Respond(ReplyView::Html(indexing_page(file_path, listing_items(file_path, entries)))),
        ],
        serve_run(
            file_path,
            RouterPreset::Static,
            false,
            StateView::ResolvingBase,
            seq![
                EventView::Canonical(Some(base)),
                EventView::Canonical(Some(dir)),
                EventView::Flag(true),
                EventView::Flag(false),
            ],
        ).1 == seq![
            ActionView::Canonicalize(join_path(base, trim_leading_slashes(file_path))),
            ActionView::IsDir(dir),
            ActionView::Exists(join_path(dir, "index.html"@)),
            ActionView::Respond(ReplyView::Forbidden),
        ],
{
    reveal_strlit("index.html");
    assert("index.html"@ =~= index_name());
    let idx = join_path(dir, index_name());
    let st = RouterPreset::Static;
    let events = seq![
        EventView::Canonical(Some(base)),
        EventView::Canonical(Some(dir)),
        EventView::Flag(true),
        EventView::Flag(false),
        EventView::Entries(Some(entries)),
    ];
    let e1 = events.drop_first();
    let e2 = e1.drop_first();
    let e3 = e2.drop_first();
    let e4 = e3.drop_first();
    let e5 = e4.drop_first();
    assert(e5.len() == 0);
    lemma_run_step(file_path, st, true, StateView::Listing(base, dir), e4);
    lemma_run_step(file_path, st, true, StateView::CheckingIndex(base, dir), e3);
    lemma_run_step(file_path, st, true, StateView::CheckingDir(base, dir), e2);
    lemma_run_step(file_path, st, true, StateView::ResolvingTarget(base), e1);
    lemma_run_step(file_path, st, true, StateView::ResolvingBase, events);
    assert(serve_run(file_path, st, true, StateView::ResolvingBase, events).1 =~= seq![
        ActionView::Canonicalize(join_path(base, trim_leading_slashes(file_path))),
        ActionView::IsDir(dir),
        ActionView::Exists(idx),
        ActionView::ListDir(dir),
        ActionView::Respond(ReplyView::Html(indexing_page(file_path, listing_items(file_path, entries)))),
    ]);
    let f = seq![
        EventView::Canonical(Some(base)),
        EventView::Canonical(Some(dir)),
        EventView::Flag(true),
        EventView::Flag(false),
    ];
    let f1 = f.drop_first();
    let f2 = f1.drop_first();
    let f3 = f2.drop_first();
    let f4 = f3.drop_first();
    assert(f4.len() == 0);
    lemma_run_step(file_path, st, false, StateView::CheckingIndex(base, dir), f3);
    lemma_run_step(file_path, st, false, StateView::CheckingDir(base, dir), f2);
    lemma_run_step(file_path, st, false, StateView::ResolvingTarget(base), f1);
    lemma_run_step(file_path, st, false, StateView::ResolvingBase, f);
    assert(serve_run(file_path, st, false, StateView::ResolvingBase, f).1 =~= seq![
        ActionView::Canonicalize(join_path(base, trim_leading_slashes(file_path))),
        ActionView::IsDir(dir),
        ActionView::Exists(idx),
        ActionView::Respond(ReplyView::Forbidden),
    ]);
}

impl FileServer {
    /// Starts serving `file_path` from `serving_dir`; the first action canonicalises the
    /// serving directory.
    pub fn new(file_path: &str, serving_dir: &str, logic: RouterPreset, index: bool) -> (r: (FileServer, ServeAction))
        ensures
            r.0.file_path@ == file_path@,
            r.0.serving_dir@ == serving_dir@,
            r.0.logic == logic,
            r.0.index == index,
            r.0.state@ == StateView::ResolvingBase,
            r.1@ == ActionView::Canonicalize(serving_dir@),
    {
        (
            FileServer {
                file_path: file_path.to_owned(),
                serving_dir: serving_dir.to_owned(),
                logic,
                index,
                state: ServeState::ResolvingBase,
            },
            ServeAction::Canonicalize(serving_dir.to_owned()),
        )
    }

    /// Takes the outcome of the last operation and gives the next action.
    pub fn step(&mut self, event: ServeEvent) -> (a: ServeAction)
        ensures
            final(self).file_path == old(self).file_path,
            final(self).serving_dir == old(self).serving_dir,
            final(self).logic == old(self).logic,
            final(self).index == old(self).index,
            (final(self).state@, a@) == serve_next(
                old(self).file_path@,
                old(self).logic,
                old(self).index,
                old(self).state@,
                event@,
            ),
    {
        let mut state = ServeState::Finished;
        std::mem::swap(&mut state, &mut self.state);
        let index_html = "index.html";
        proof {
            reveal_strlit("index.html");
            assert(index_html@ =~= index_name());
        }
        match (state, event) {
            (ServeState::ResolvingBase, ServeEvent::Canonical(Some(base))) => {
                let rel = trim_start_slashes(self.file_path.as_str());
                let target = join(base.as_str(), rel.as_str());
                self.state = ServeState::ResolvingTarget(base);
                ServeAction::Canonicalize(target)
            },
            (ServeState::ResolvingTarget(base), ServeEvent::Canonical(Some(target))) => {
                if path_within(target.as_str(), base.as_str()) {
                    let probe = target.clone();
                    self.state = ServeState::CheckingDir(base, target);
                    ServeAction::IsDir(probe)
                } else {
                    ServeAction::Respond(Reply::Forbidden)
                }
            },
            (ServeState::ResolvingTarget(base), ServeEvent::Canonical(None)) => {
                if self.logic == RouterPreset::Spa {
                    let fallback = join(base.as_str(), index_html);
                    self.state = ServeState::CheckingFallback(base);
                    ServeAction::Exists(fallback)
                } else {
                    ServeAction::Respond(Reply::NotFound)
                }
            },
            (ServeState::CheckingDir(base, target), ServeEvent::Flag(is_dir)) => {
                if !is_dir {
                    let path = target.clone();
                    self.state = ServeState::Opening(base, target);
                    ServeAction::Open(path)
                } else if self.logic == RouterPreset::Spa {
                    let fallback = join(base.as_str(), index_html);
                    self.state = ServeState::CheckingFallback(base);
                    ServeAction::Exists(fallback)
                } else {
                    let n = self.file_path.as_str().unicode_len();
                    if n == 0 || self.file_path.as_str().get_char(n - 1) != '/' {
                        let mut location = self.file_path.clone();
                        location.append("/");
                        proof {
                            reveal_strlit("/");
                            assert(location@ =~= self.file_path@ + seq!['/']);
                        }
                        ServeAction::Respond(Reply::Redirect(location))
                    } else {
                        let candidate = join(target.as_str(), index_html);
                        self.state = ServeState::CheckingIndex(base, target);
                        ServeAction::Exists(candidate)
                    }
                }
            },
            (ServeState::CheckingIndex(base, dir), ServeEvent::Flag(exists)) => {
                if exists {
                    let path = join(dir.as_str(), index_html);
                    let open = path.clone();
                    self.state = ServeState::Opening(base, path);
                    ServeAction::Open(open)
                } else if self.index {
                    let listed = dir.clone();
                    self.state = ServeState::Listing(base, dir);
                    ServeAction::ListDir(listed)
                } else {
                    ServeAction::Respond(Reply::Forbidden)
                }
            },
            (ServeState::Listing(_base, _dir), ServeEvent::Entries(Some(entries))) => {
                let body = render_listing(self.file_path.as_str(), &entries);
                ServeAction::Respond(Reply::Html(body))
            },
            (ServeState::Listing(_base, _dir), ServeEvent::Entries(None)) => {
                ServeAction::Respond(Reply::Forbidden)
            },
            (ServeState::CheckingFallback(base), ServeEvent::Flag(exists)) => {
                if exists {
                    let path = join(base.as_str(), index_html);
                    let open = path.clone();
                    self.state = ServeState::Opening(base, path);
                    ServeAction::Open(open)
                } else {
                    ServeAction::Respond(Reply::NotFound)
                }
            },
            (ServeState::Opening(_base, path), ServeEvent::Opened(Some(len))) => {
                ServeAction::Respond(Reply::File(path, len))
            },
            _ => ServeAction::Fail,
        }
    }
}

} // verus!
