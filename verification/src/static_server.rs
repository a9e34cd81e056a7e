//! Serving files from below a fixed root directory.
//!
//! The file system is the caller's: this module decides. The caller reports
//! what a path resolved to and whether a file could be opened, and is told
//! what to do next, until a reply is ready. A file is served only where the
//! resolved path lies below the root and is no directory; every other
//! request ends in a reply with status 404.
use crate::reply::{
    text_reply, Body, BodyModel, Reply, ReplyModel, STATUS_NOT_FOUND, STATUS_OK,
};
use crate::text::{
    chars_of, count_leading, is_prefix_of, joined, lemma_filter_last, lemma_filter_none, split_on,
    split_range, starts_with, string_of, texts, trim_start,
};
use vstd::prelude::*;

verus! {

/// Index of the last occurrence of `c` in `s`, or -1 where there is none.
pub open spec fn last_index(s: Seq<char>, c: char) -> int
    decreases s.len(),
{
    if s.len() == 0 {
        -1
    } else if s.last() == c {
        s.len() - 1
    } else {
        last_index(s.drop_last(), c)
    }
}

/// Whether a piece between two slashes of a path is a component of it:
/// an empty piece and the piece `.` are none.
pub open spec fn is_component(piece: Seq<char>) -> bool {
    piece.len() > 0 && piece != seq!['.']
}

/// The components of a slash-separated path. Repeated and trailing slashes
/// and pieces that read `.` add nothing.
pub open spec fn components(path: Seq<char>) -> Seq<Seq<char>> {
    split_on(path, '/').filter(|piece: Seq<char>| is_component(piece))
}

/// The file name of a path: its last component. A path without components
/// has none, and neither has one that ends in `..`.
pub open spec fn file_name(path: Seq<char>) -> Option<Seq<char>> {
    let all = components(path);
    if all.len() == 0 || all.last() == seq!['.', '.'] {
        None
    } else {
        Some(all.last())
    }
}

/// The extension of a path: what follows the last dot of its file name. A
/// path without a file name has none, and neither has a file name without
/// a dot or with its only dot in front.
pub open spec fn extension(path: Seq<char>) -> Option<Seq<char>> {
    match file_name(path) {
        None => None,
        Some(name) => {
            let dot = last_index(name, '.');
            if dot <= 0 {
                None
            } else {
                Some(name.skip(dot + 1))
            }
        },
    }
}

/// The path of `relative` below the directory with the components `root`:
/// all of them joined with slashes.
pub open spec fn path_below(root: Seq<Seq<char>>, relative: Seq<char>) -> Seq<char> {
    joined(root.push(relative), seq!['/'])
}

/// The content type that goes with an extension.
pub open spec fn mime_of_extension(ext: Seq<char>) -> Option<Seq<char>> {
    if ext == "html"@ {
        Some("text/html"@)
    } else if ext == "css"@ {
        Some("text/css"@)
    } else if ext == "js"@ {
        Some("text/javascript"@)
    } else if ext == "ico"@ {
        Some("image/vnd.microsoft.icon"@)
    } else if ext == "jpeg"@ {
        Some("image/jpeg"@)
    } else if ext == "jpg"@ {
        Some("image/jpeg"@)
    } else if ext == "png"@ {
        Some("image/png"@)
    } else if ext == "svg"@ {
        Some("image/svg+xml"@)
    } else {
        None
    }
}

/// The content type of the file at `path`, if its extension has one.
pub open spec fn mime_type(path: Seq<char>) -> Option<Seq<char>> {
    match extension(path) {
        Some(ext) => mime_of_extension(ext),
        None => None,
    }
}

/// The last `c` of `s` stands at `at` where no later element is `c`.
pub proof fn lemma_last_index(s: Seq<char>, c: char, at: int)
    requires
        -1 <= at < s.len(),
        at >= 0 ==> s[at] == c,
        forall|j: int| at < j < s.len() ==> s[j] != c,
    ensures
        last_index(s, c) == at,
    decreases s.len(),
{
    if s.len() > 0 && at < s.len() - 1 {
        let rest = s.drop_last();
        assert(s.last() != c);
        assert forall|j: int| at < j < rest.len() implies rest[j] != c by {
            assert(rest[j] == s[j]);
        }
        if at >= 0 {
            assert(rest[at] == s[at]);
        }
        lemma_last_index(rest, c, at);
    }
}

/// Index behind the last `c` in `chars[from..]`, or `from` where there is none.
fn after_last(chars: &Vec<char>, from: usize, c: char) -> (at: usize)
    requires
        from <= chars.len(),
    ensures
        from <= at <= chars.len(),
        at == from + last_index(chars@.skip(from as int), c) + 1,
{
    let mut i: usize = chars.len();
    while i > from && chars[i - 1] != c
        invariant
            from <= i <= chars.len(),
            forall|j: int| i <= j < chars.len() ==> chars[j] != c,
        decreases i,
    {
        i -= 1;
    }
    proof {
        let tail = chars@.skip(from as int);
        assert forall|j: int| i - from - 1 < j < tail.len() implies tail[j] != c by {
            assert(tail[j] == chars[from + j]);
        }
        lemma_last_index(tail, c, i - from - 1);
    }
    i
}

/// Whether `text` reads `literal`.
fn reads(text: &String, literal: &str) -> (yes: bool)
    ensures
        yes == (text@ == literal@),
{
    *text == literal.to_owned()
}

/// The characters of the file name of `path`, if it has one.
fn file_name_of(path: &str) -> (name: Option<Vec<char>>)
    ensures
        match (file_name(path@), name) {
            (Some(wanted), Some(got)) => got@ == wanted,
            (None, None) => true,
            _ => false,
        },
{
    let chars = chars_of(path);
    let pieces = split_range(&chars, 0, chars.len(), '/');
    let ghost all = texts(pieces@);
    let ghost kept = |piece: Seq<char>| is_component(piece);
    proof {
        assert(chars@.subrange(0, chars.len() as int) =~= path@);
    }
    let mut i: usize = pieces.len();
    while i > 0
        invariant
            i <= pieces.len(),
            all == texts(pieces@),
            all == split_on(path@, '/'),
            kept == |piece: Seq<char>| is_component(piece),
            forall|j: int| i <= j < all.len() ==> !is_component(all[j]),
        decreases i,
    {
        let piece = chars_of(pieces[i - 1].as_str());
        let is_dot = piece.len() == 1 && piece[0] == '.';
        proof {
            assert(all[i - 1] == piece@);
            if is_dot {
                assert(piece@ =~= seq!['.']);
            } else if piece.len() == 1 {
                assert(piece@[0] != seq!['.'][0]);
            }
        }
        if piece.len() > 0 && !is_dot {
            let is_parent = piece.len() == 2 && piece[0] == '.' && piece[1] == '.';
            proof {
                lemma_filter_last(all, kept, i - 1);
                if is_parent {
                    assert(piece@ =~= seq!['.', '.']);
                } else if piece.len() == 2 {
                    assert(piece@[0] != seq!['.', '.'][0] || piece@[1] != seq!['.', '.'][1]);
                }
            }
            if is_parent {
                return None;
            }
            return Some(piece);
        }
        i -= 1;
    }
    proof {
        lemma_filter_none(all, kept);
    }
    None
}

/// The content type of the file at `path`, by its extension:
/// `html`, `css`, `js`, `ico`, `jpeg`, `jpg`, `png` and `svg` have one, and
/// every other path has none. The extension is that of the last component
/// of the path, whether or not slashes or `.` follow it.
pub fn path_to_mime_type(path: &str) -> (mime: Option<String>)
    ensures
        match (mime_type(path@), mime) {
            (Some(wanted), Some(got)) => got@ == wanted,
            (None, None) => true,
            _ => false,
        },
{
    let name = match file_name_of(path) {
        Some(name) => name,
        None => {
            return None;
        },
    };
    let ext_at = after_last(&name, 0, '.');
    proof {
        assert(name@.skip(0) =~= name@);
        assert(name@.subrange(ext_at as int, name.len() as int) =~= name@.skip(ext_at as int));
    }
    if ext_at <= 1 {
        return None;
    }
    let ext = string_of(&name, ext_at, name.len());
    if reads(&ext, "html") {
        Some("text/html".to_owned())
    } else if reads(&ext, "css") {
        Some("text/css".to_owned())
    } else if reads(&ext, "js") {
        Some("text/javascript".to_owned())
    } else if reads(&ext, "ico") {
        Some("image/vnd.microsoft.icon".to_owned())
    } else if reads(&ext, "jpeg") {
        Some("image/jpeg".to_owned())
    } else if reads(&ext, "jpg") {
        Some("image/jpeg".to_owned())
    } else if reads(&ext, "png") {
        Some("image/png".to_owned())
    } else if reads(&ext, "svg") {
        Some("image/svg+xml".to_owned())
    } else {
        None
    }
}

/// The path of `relative` below the directory with the components `root`.
pub fn join_below(root: &Vec<String>, relative: &str) -> (path: String)
    ensures
        path@ == path_below(texts(root@), relative@),
{
    let mut path = String::new();
    let mut i: usize = 0;
    while i < root.len()
        invariant
            i <= root.len(),
            path@ == joined(texts(root@).take(i as int), seq!['/']),
        decreases root.len() - i,
    {
        let ghost before = texts(root@).take(i as int);
        let ghost after = texts(root@).take(i + 1);
        if i > 0 {
            path.append("/");
        }
        path.append(root[i].as_str());
        proof {
            reveal_strlit("/");
            assert("/"@ =~= seq!['/']);
            assert(after.drop_last() =~= before);
            assert(after.last() == root[i as int]@);
            assert(path@ =~= joined(after, seq!['/']));
        }
        i += 1;
    }
    let ghost all = texts(root@);
    let ghost whole = all.push(relative@);
    proof {
        assert(all.take(root.len() as int) =~= all);
        assert(whole.drop_last() =~= all);
    }
    if root.len() > 0 {
        path.append("/");
        proof {
            reveal_strlit("/");
            assert("/"@ =~= seq!['/']);
        }
    }
    path.append(relative);
    proof {
        assert(path@ =~= joined(whole, seq!['/']));
    }
    path
}

/// The path of a request relative to the root: without its leading slashes.
pub fn relative_path(uri_path: &str) -> (relative: String)
    ensures
        relative@ == trim_start(uri_path@, '/'),
{
    let chars = chars_of(uri_path);
    let lead = count_leading(&chars, 0, '/');
    proof {
        assert(chars@.skip(0) =~= chars@);
        assert(chars@.subrange(lead as int, chars.len() as int) =~= chars@.skip(lead as int));
    }
    string_of(&chars, lead, chars.len())
}

/// What resolving a path in the file system gave. A resolved path is
/// canonical, free of links and of `..`, and given by its components from
/// the top.
#[derive(Debug)]
pub enum PathProbe {
    /// Nothing is there, or it cannot be reached.
    Missing,
    /// A directory.
    Directory(Vec<String>),
    /// Something that is no directory.
    File(Vec<String>),
}

/// Mathematical model of a [`PathProbe`].
pub enum ProbeModel {
    Missing,
    Directory(Seq<Seq<char>>),
    File(Seq<Seq<char>>),
}

impl View for PathProbe {
    type V = ProbeModel;

    open spec fn view(&self) -> ProbeModel {
        match self {
            PathProbe::Missing => ProbeModel::Missing,
            PathProbe::Directory(path) => ProbeModel::Directory(texts(path@)),
            PathProbe::File(path) => ProbeModel::File(texts(path@)),
        }
    }
}

/// What the caller reports back.
#[derive(Debug)]
pub enum Event {
    /// The path asked for resolved to this.
    Resolved(PathProbe),
    /// The file asked for was opened, or could not be.
    Opened(bool),
}

/// Mathematical model of an [`Event`].
pub enum EventModel {
    Resolved(ProbeModel),
    Opened(bool),
}

impl View for Event {
    type V = EventModel;

    open spec fn view(&self) -> EventModel {
        match self {
            Event::Resolved(probe) => EventModel::Resolved(probe@),
            Event::Opened(opened) => EventModel::Opened(*opened),
        }
    }
}

/// Where the serving of one request stands, and with it what the caller
/// does next.
#[derive(Debug)]
pub enum Serving {
    /// Join `relative` to the root, resolve the result and report
    /// [`Event::Resolved`].
    Resolving { relative: String },
    /// Open the file that the path resolved to and report [`Event::Opened`].
    Opening { relative: String },
    /// Open the fallback file and report [`Event::Opened`].
    OpeningFallback { relative: String },
    /// Send the reply.
    Finished(Reply),
}

/// Mathematical model of a [`Serving`].
pub enum ServingModel {
    Resolving { relative: Seq<char> },
    Opening { relative: Seq<char> },
    OpeningFallback { relative: Seq<char> },
    Finished(ReplyModel),
}

impl View for Serving {
    type V = ServingModel;

    open spec fn view(&self) -> ServingModel {
        match self {
            Serving::Resolving { relative } => ServingModel::Resolving { relative: relative@ },
            Serving::Opening { relative } => ServingModel::Opening { relative: relative@ },
            Serving::OpeningFallback { relative } => ServingModel::OpeningFallback {
                relative: relative@,
            },
            Serving::Finished(reply) => ServingModel::Finished(reply@),
        }
    }
}

/// The reply that carries the requested file. Its content type goes by
/// the path that was resolved: that of `relative` below `root`.
pub open spec fn file_reply(root: Seq<Seq<char>>, relative: Seq<char>) -> ReplyModel {
    ReplyModel {
        status: STATUS_OK,
        content_type: mime_type(path_below(root, relative)),
        body: BodyModel::File,
    }
}

/// The reply that carries the fallback file.
pub open spec fn fallback_reply() -> ReplyModel {
    ReplyModel { status: STATUS_NOT_FOUND, content_type: None, body: BodyModel::FallbackFile }
}

/// The reply that names the path that was not found.
pub open spec fn missing_reply(relative: Seq<char>) -> ReplyModel {
    text_reply(STATUS_NOT_FOUND, "Resource not found: "@ + relative)
}

/// Where serving goes once the requested file is known not to be served.
pub open spec fn not_found(has_fallback: bool, relative: Seq<char>) -> ServingModel {
    if has_fallback {
        ServingModel::OpeningFallback { relative }
    } else {
        ServingModel::Finished(missing_reply(relative))
    }
}

/// Whether `probe` found a file below `root`.
pub open spec fn servable(root: Seq<Seq<char>>, probe: ProbeModel) -> bool {
    probe matches ProbeModel::File(path) && is_prefix_of(root, path)
}

/// The state that follows `state` on `event`, for a server rooted at `root`.
/// An event that the state does not wait for changes nothing.
pub open spec fn step(
    root: Seq<Seq<char>>,
    has_fallback: bool,
    state: ServingModel,
    event: EventModel,
) -> ServingModel {
    match (state, event) {
        (ServingModel::Resolving { relative }, EventModel::Resolved(probe)) => {
            if servable(root, probe) {
                ServingModel::Opening { relative }
            } else {
                not_found(has_fallback, relative)
            }
        },
        (ServingModel::Opening { relative }, EventModel::Opened(opened)) => {
            if opened {
                ServingModel::Finished(file_reply(root, relative))
            } else {
                not_found(has_fallback, relative)
            }
        },
        (ServingModel::OpeningFallback { relative }, EventModel::Opened(opened)) => {
            if opened {
                ServingModel::Finished(fallback_reply())
            } else {
                ServingModel::Finished(missing_reply(relative))
            }
        },
        _ => state,
    }
}

/// The state reached from `state` by `events`, in order.
pub open spec fn run(
    root: Seq<Seq<char>>,
    has_fallback: bool,
    state: ServingModel,
    events: Seq<EventModel>,
) -> ServingModel
    decreases events.len(),
{
    if events.len() == 0 {
        state
    } else {
        step(root, has_fallback, run(root, has_fallback, state, events.drop_last()), events.last())
    }
}

/// A server of the files below one directory.
#[derive(Debug)]
pub struct StaticServer {
    root: Option<Vec<String>>,
    fallback_file: Option<Vec<String>>,
}

impl StaticServer {
    /// The resolved root directory, once it is set.
    pub closed spec fn root(&self) -> Option<Seq<Seq<char>>> {
        match self.root {
            Some(path) => Some(texts(path@)),
            None => None,
        }
    }

    /// The resolved fallback file, if one is set.
    pub closed spec fn fallback_file(&self) -> Option<Seq<Seq<char>>> {
        match self.fallback_file {
            Some(path) => Some(texts(path@)),
            None => None,
        }
    }

    /// A server without root and without fallback file.
    pub fn new() -> (server: StaticServer)
        ensures
            server.root() is None,
            server.fallback_file() is None,
    {
        StaticServer { root: None, fallback_file: None }
    }

    /// Sets the root to the directory that `probe` found. Anything but a
    /// directory is no root: the caller looks before it calls.
    pub fn with_root(&mut self, probe: PathProbe)
        requires
            probe is Directory,
        ensures
            final(self).root() == Some(probe@->Directory_0),
            final(self).fallback_file() == old(self).fallback_file(),
    {
        match probe {
            PathProbe::Directory(path) => {
                self.root = Some(path);
            },
            _ => {},
        }
    }

    /// Sets the fallback file to the file that `probe` found. A directory,
    /// or nothing, is no fallback file: the caller looks before it calls.
    pub fn with_fallback_file(&mut self, probe: PathProbe)
        requires
            probe is File,
        ensures
            final(self).fallback_file() == Some(probe@->File_0),
            final(self).root() == old(self).root(),
    {
        match probe {
            PathProbe::File(path) => {
                self.fallback_file = Some(path);
            },
            _ => {},
        }
    }

    /// Whether a root is set.
    pub fn has_root(&self) -> (yes: bool)
        ensures
            yes == self.root() is Some,
    {
        self.root.is_some()
    }

    /// The components of the root.
    pub fn root_path(&self) -> (path: &Vec<String>)
        requires
            self.root() is Some,
        ensures
            texts(path@) == self.root()->0,
    {
        self.root.as_ref().unwrap()
    }

    /// The components of the fallback file, if one is set.
    pub fn fallback_path(&self) -> (path: Option<&Vec<String>>)
        ensures
            match path {
                Some(found) => self.fallback_file() == Some(texts(found@)),
                None => self.fallback_file() is None,
            },
    {
        self.fallback_file.as_ref()
    }

    /// Where serving goes once the requested file is known not to be
    /// served: to the fallback file where one is set, else to the reply
    /// that names `relative`. Either way the status will be 404.
    pub fn get_not_found_response(&self, relative: String) -> (next: Serving)
        ensures
            next@ == not_found(self.fallback_file() is Some, relative@),
    {
        if self.fallback_file.is_some() {
            Serving::OpeningFallback { relative }
        } else {
            Serving::Finished(
                Reply::text(STATUS_NOT_FOUND, "Resource not found: ", relative.as_str()),
            )
        }
    }

    /// Starts serving the request for `uri_path`: the caller is to resolve
    /// the path without its leading slashes below the root.
    pub fn call(&self, uri_path: &str) -> (state: Serving)
        requires
            self.root() is Some,
        ensures
            state@ == (ServingModel::Resolving { relative: trim_start(uri_path@, '/') }),
    {
        Serving::Resolving { relative: relative_path(uri_path) }
    }

    /// Takes `event` in and says what comes next.
    pub fn advance(&self, state: Serving, event: Event) -> (next: Serving)
        requires
            self.root() is Some,
        ensures
            next@ == step(self.root()->0, self.fallback_file() is Some, state@, event@),
    {
        match state {
            Serving::Resolving { relative } => match event {
                Event::Resolved(PathProbe::File(path)) => {
                    if starts_with(&path, self.root_path()) {
                        Serving::Opening { relative }
                    } else {
                        self.get_not_found_response(relative)
                    }
                },
                Event::Resolved(_) => self.get_not_found_response(relative),
                Event::Opened(_) => Serving::Resolving { relative },
            },
            Serving::Opening { relative } => match event {
                Event::Opened(true) => {
                    let joined = join_below(self.root_path(), relative.as_str());
                    let content_type = path_to_mime_type(joined.as_str());
                    Serving::Finished(Reply { status: STATUS_OK, content_type, body: Body::File })
                },
                Event::Opened(false) => self.get_not_found_response(relative),
                Event::Resolved(_) => Serving::Opening { relative },
            },
            Serving::OpeningFallback { relative } => match event {
                Event::Opened(true) => Serving::Finished(
                    Reply { status: STATUS_NOT_FOUND, content_type: None, body: Body::FallbackFile },
                ),
                Event::Opened(false) => Serving::Finished(
                    Reply::text(STATUS_NOT_FOUND, "Resource not found: ", relative.as_str()),
                ),
                Event::Resolved(_) => Serving::OpeningFallback { relative },
            },
            Serving::Finished(reply) => Serving::Finished(reply),
        }
    }
}

/// Whether `state` can no longer end in the requested file: it waits for
/// the fallback file, or holds a reply with status 404 that does not carry
/// the requested file.
pub open spec fn refused(state: ServingModel) -> bool {
    match state {
        ServingModel::OpeningFallback { .. } => true,
        ServingModel::Finished(reply) => reply.status == STATUS_NOT_FOUND && !(reply.body
            is File),
        _ => false,
    }
}

/// A refused request stays refused, whatever is reported.
pub proof fn lemma_refused_is_final(
    root: Seq<Seq<char>>,
    has_fallback: bool,
    state: ServingModel,
    events: Seq<EventModel>,
)
    requires
        refused(state),
    ensures
        refused(run(root, has_fallback, state, events)),
    decreases events.len(),
{
    if events.len() > 0 {
        lemma_refused_is_final(root, has_fallback, state, events.drop_last());
    }
}

/// A request that resolves to anything but a file below the root is never
/// answered with a file of that path: whatever is reported afterwards, and
/// whether or not something exists where the path led, a reply has status
/// 404 and does not carry the requested file.
pub proof fn lemma_outside_root_is_not_found(
    root: Seq<Seq<char>>,
    has_fallback: bool,
    relative: Seq<char>,
    probe: ProbeModel,
    later: Seq<EventModel>,
)
    requires
        !servable(root, probe),
    ensures
        refused(
            run(
                root,
                has_fallback,
                step(
                    root,
                    has_fallback,
                    (ServingModel::Resolving { relative }),
                    EventModel::Resolved(probe),
                ),
                later,
            ),
        ),
{
    let first = step(
        root,
        has_fallback,
        ServingModel::Resolving { relative },
        EventModel::Resolved(probe),
    );
    lemma_refused_is_final(root, has_fallback, first, later);
}

/// What holds of every state that serving can reach: the fallback file is
/// waited for only where one is set, and a reply has status 200 or 404, has
/// 200 exactly where it carries the requested file, and carries the
/// fallback file only where one is set.
pub open spec fn sound(has_fallback: bool, state: ServingModel) -> bool {
    match state {
        ServingModel::OpeningFallback { .. } => has_fallback,
        ServingModel::Finished(reply) => {
            &&& reply.status == STATUS_OK || reply.status == STATUS_NOT_FOUND
            &&& reply.status == STATUS_OK <==> reply.body is File
            &&& reply.body is FallbackFile ==> has_fallback
        },
        _ => true,
    }
}

/// Every reply has status 200 or 404; it has 200 exactly where it carries
/// the requested file, and the fallback file only ever goes out under 404:
/// a fallback changes the body of a reply, never its status.
pub proof fn lemma_replies(
    root: Seq<Seq<char>>,
    has_fallback: bool,
    relative: Seq<char>,
    events: Seq<EventModel>,
)
    ensures
        sound(has_fallback, run(root, has_fallback, (ServingModel::Resolving { relative }), events)),
    decreases events.len(),
{
    if events.len() > 0 {
        lemma_replies(root, has_fallback, relative, events.drop_last());
    }
}

} // verus!
