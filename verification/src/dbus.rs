//! The wire-facing side of the portal: request descriptors, the per-request
//! object registry, and the exact encoding of terminal outcomes into the
//! `Response` signal payload. Marshalling and transport belong to the IPC
//! layer outside the library; everything here is plain data with contracts.

use vstd::prelude::*;
use vstd::string::StrSliceExecFns;
use vstd::string::StringExecFns;

verus! {

/// One inbound file-chooser call: the window title to show and the object
/// path under which the request was registered.
pub struct Req {
    pub title: String,
    pub path: String,
}

/// The mathematical value of a [`Req`].
pub ghost struct ReqV {
    pub title: Seq<char>,
    pub path: Seq<char>,
}

impl View for Req {
    type V = ReqV;

    open spec fn view(&self) -> ReqV {
        ReqV { title: self.title@, path: self.path@ }
    }
}

/// The terminal outcome of one request.
pub enum RePayload {
    /// The user picked these absolute paths.
    PickedFiles(Vec<String>),
    /// The user cancelled the dialog.
    UserCancel,
}

/// The `Response` signal payload: a response code and a results map, here as
/// a list of entries whose values are lists of URI strings.
pub struct ResponsePayload {
    pub code: u32,
    pub results: Vec<(String, Vec<String>)>,
}

/// A `file://` URI for an absolute path.
pub open spec fn file_uri(path: Seq<char>) -> Seq<char> {
    "file://"@ + path
}

/// Prefixes an absolute path with the `file://` scheme.
pub fn file_uri_of(path: &str) -> (r: String)
    ensures
        r@ == file_uri(path@),
{
    let prefix: String = String::from_str("file://");
    prefix.concat(path)
}

impl RePayload {
    /// Encodes a terminal outcome for the wire: picked files become code `0`
    /// with a single `uris` entry, cancellation becomes code `1` with an
    /// empty results map.
    pub fn encode(self) -> (r: ResponsePayload)
        ensures
            self matches RePayload::PickedFiles(paths) ==> {
                &&& r.code == 0u32
                &&& r.results@.len() == 1
                &&& r.results@[0].0@ == "uris"@
                &&& r.results@[0].1@.map_values(|s: String| s@) == paths@.map_values(
                    |p: String| file_uri(p@),
                )
            },
            self is UserCancel ==> r.code == 1u32 && r.results@.len() == 0,
    {
        match self {
            RePayload::PickedFiles(paths) => {
                let mut uris: Vec<String> = Vec::new();
                let mut i: usize = 0;
                while i < paths.len()
                    invariant
                        i <= paths@.len(),
                        uris@.len() == i,
                        forall|j: int| 0 <= j < i ==> uris@[j]@ == file_uri(paths@[j]@),
                    decreases paths@.len() - i,
                {
                    let u = file_uri_of(paths[i].as_str());
                    uris.push(u);
                    i += 1;
                }
                let mut results: Vec<(String, Vec<String>)> = Vec::new();
                results.push((String::from_str("uris"), uris));
                let r = ResponsePayload { code: 0, results };
                proof {
                    assert(r.results@[0].1@.map_values(|s: String| s@) =~~= paths@.map_values(
                        |p: String| file_uri(p@),
                    ));
                }
                r
            },
            RePayload::UserCancel => ResponsePayload { code: 1, results: Vec::new() },
        }
    }
}

/// A registry operation that could not be carried out.
#[derive(Debug, PartialEq, Eq, Structural, Clone, Copy)]
pub enum RegistryError {
    /// The identity is already registered for a still-open request.
    AlreadyRegistered,
    /// The identity is not registered.
    NotFound,
}

/// Why an inbound `OpenFile` call was rejected at the method boundary.
#[derive(Debug, PartialEq, Eq, Structural, Clone, Copy)]
pub enum CallError {
    /// The `handle_token` option is absent, not a string, or yields no valid
    /// object path.
    MalformedRequest,
    /// The derived object identity is already registered.
    RegistrationFailure,
}

/// The table of IPC-addressable request objects: which object paths are
/// currently registered on the server. Registration makes an identity
/// externally addressable; deregistration makes it immediately unaddressable.
pub struct Registry {
    pub paths: Vec<String>,
}

impl View for Registry {
    type V = Seq<Seq<char>>;

    open spec fn view(&self) -> Seq<Seq<char>> {
        self.paths@.map_values(|s: String| s@)
    }
}

impl Registry {
    /// No identity is registered twice.
    pub open spec fn wf(self) -> bool {
        forall|i: int, j: int| 0 <= i < j < self@.len() ==> self@[i] != self@[j]
    }

    /// Whether `path` is currently registered.
    pub open spec fn registered(self, path: Seq<char>) -> bool {
        self@.contains(path)
    }

    /// An empty registry.
    pub fn new() -> (r: Registry)
        ensures
            r@ == Seq::<Seq<char>>::empty(),
            r.wf(),
    {
        let r = Registry { paths: Vec::new() };
        proof {
            assert(r@ =~= Seq::<Seq<char>>::empty());
        }
        r
    }

    /// Looks an identity up.
    pub fn is_registered(&self, path: &String) -> (b: bool)
        ensures
            b == self.registered(path@),
    {
        let mut i: usize = 0;
        while i < self.paths.len()
            invariant
                i <= self@.len(),
                forall|j: int| 0 <= j < i ==> self@[j] != path@,
            decreases self@.len() - i,
        {
            if self.paths[i] == *path {
                proof {
                    assert(self@[i as int] == path@);
                }
                return true;
            }
            i += 1;
        }
        false
    }

    /// Registers an identity; an identity still open from an earlier request
    /// is refused and the registry is left untouched.
    pub fn register(&mut self, path: String) -> (r: Result<(), RegistryError>)
        requires
            old(self).wf(),
        ensures
            final(self).wf(),
            old(self).registered(path@) ==> r == Result::<(), RegistryError>::Err(
                RegistryError::AlreadyRegistered,
            ) && *final(self) == *old(self),
            !old(self).registered(path@) ==> r == Result::<(), RegistryError>::Ok(())
                && final(self)@ == old(self)@.push(path@),
    {
        if self.is_registered(&path) {
            return Err(RegistryError::AlreadyRegistered);
        }
        self.paths.push(path);
        proof {
            assert(final(self)@ =~= old(self)@.push(path@));
        }
        Ok(())
    }

    /// Deregisters an identity; one that is not registered is reported as
    /// [`RegistryError::NotFound`] and nothing changes.
    pub fn deregister(&mut self, path: &String) -> (r: Result<(), RegistryError>)
        requires
            old(self).wf(),
        ensures
            final(self).wf(),
            !old(self).registered(path@) ==> r == Result::<(), RegistryError>::Err(
                RegistryError::NotFound,
            ) && *final(self) == *old(self),
            old(self).registered(path@) ==> {
                &&& r == Result::<(), RegistryError>::Ok(())
                &&& !final(self).registered(path@)
                &&& final(self)@.len() == old(self)@.len() - 1
            },
            forall|q: Seq<char>|
                q != path@ ==> final(self).registered(q) == old(self).registered(q),
    {
        let mut i: usize = 0;
        while i < self.paths.len()
            invariant
                i <= self@.len(),
                forall|j: int| 0 <= j < i ==> self@[j] != path@,
                *self == *old(self),
                old(self).wf(),
            decreases self@.len() - i,
        {
            if self.paths[i] == *path {
                proof {
                    assert(old(self)@[i as int] == path@);
                }
                self.paths.remove(i);
                proof {
                    assert(self@ =~= old(self)@.remove(i as int));
                    lemma_remove_registered(old(self)@, i as int, path@);
                }
                return Ok(());
            }
            i += 1;
        }
        Err(RegistryError::NotFound)
    }
}

/// After removing the one occurrence of `path` from a duplicate-free list,
/// `path` is gone and every other identity keeps its membership.
proof fn lemma_remove_registered(s: Seq<Seq<char>>, i: int, path: Seq<char>)
    requires
        0 <= i < s.len(),
        s[i] == path,
        forall|a: int, b: int| 0 <= a < b < s.len() ==> s[a] != s[b],
    ensures
        !s.remove(i).contains(path),
        forall|q: Seq<char>| q != path ==> s.remove(i).contains(q) == s.contains(q),
        forall|a: int, b: int|
            0 <= a < b < s.remove(i).len() ==> s.remove(i)[a] != s.remove(i)[b],
{
    let t = s.remove(i);
    assert forall|k: int| 0 <= k < t.len() implies t[k] != path by {
        if k < i {
            assert(t[k] == s[k]);
        } else {
            assert(t[k] == s[k + 1]);
        }
    }
    assert forall|q: Seq<char>| q != path implies t.contains(q) == s.contains(q) by {
        if s.contains(q) {
            let k = choose|k: int| 0 <= k < s.len() && s[k] == q;
            if k < i {
                assert(t[k] == q);
            } else {
                assert(k != i);
                assert(t[k - 1] == q);
            }
        }
        if t.contains(q) {
            let k = choose|k: int| 0 <= k < t.len() && t[k] == q;
            if k < i {
                assert(s[k] == q);
            } else {
                assert(s[k + 1] == q);
            }
        }
    }
}

/// A value from the options map of an inbound call, as far as the method
/// boundary inspects it: a string, or anything else.
pub enum OptValue {
    Str(String),
    Other,
}

/// `.` becomes `_`; every other character stays.
pub open spec fn dot_to_underscore(c: char) -> char {
    if c == '.' {
        '_'
    } else {
        c
    }
}

/// Replaces every `.` with `_`.
pub open spec fn replace_dots(s: Seq<char>) -> Seq<char> {
    Seq::new(s.len(), |i: int| dot_to_underscore(s[i]))
}

/// The caller's bus identity as it appears inside the object path: the `:`
/// prefix stripped, internal `.` separators replaced with `_`.
pub open spec fn sanitized_sender(s: Seq<char>) -> Seq<char> {
    if s.len() > 0 && s[0] == ':' {
        replace_dots(s.subrange(1, s.len() as int))
    } else {
        replace_dots(s)
    }
}

/// Sanitizes a caller's bus identity for use as an object path element.
pub fn sanitize_sender(sender: &str) -> (r: String)
    ensures
        r@ == sanitized_sender(sender@),
{
    proof {
        reveal_strlit("_");
    }
    let n = sender.unicode_len();
    let mut start: usize = 0;
    if n > 0 {
        if sender.get_char(0) == ':' {
            start = 1;
        }
    }
    let mut out = String::new();
    let mut i: usize = start;
    while i < n
        invariant
            start <= i <= n,
            start <= 1,
            n == sender@.len(),
            start == 1 ==> n > 0 && sender@[0] == ':',
            start == 0 ==> !(sender@.len() > 0 && sender@[0] == ':'),
            "_"@ == seq!['_'],
            out@ == replace_dots(sender@.subrange(start as int, i as int)),
        decreases n - i,
    {
        let c = sender.get_char(i);
        if c == '.' {
            out.append("_");
        } else {
            let piece = sender.substring_char(i, i + 1);
            out.append(piece);
        }
        proof {
            assert(out@ =~= replace_dots(sender@.subrange(start as int, i + 1 as int)));
        }
        i += 1;
    }
    proof {
        assert(sender@.subrange(start as int, n as int) =~= if start == 1 {
            sender@.subrange(1, sender@.len() as int)
        } else {
            sender@
        });
    }
    out
}

/// A character an object path element may hold.
pub open spec fn is_path_element_char(c: char) -> bool {
    ('a' <= c && c <= 'z') || ('A' <= c && c <= 'Z') || ('0' <= c && c <= '9') || c == '_'
}

/// A legal, non-empty object path element.
pub open spec fn valid_path_element(s: Seq<char>) -> bool {
    s.len() > 0 && forall|i: int| 0 <= i < s.len() ==> is_path_element_char(s[i])
}

/// Checks a string against the object path element grammar.
pub fn check_path_element(s: &str) -> (b: bool)
    ensures
        b == valid_path_element(s@),
{
    let n = s.unicode_len();
    if n == 0 {
        return false;
    }
    let mut i: usize = 0;
    while i < n
        invariant
            i <= n,
            n == s@.len(),
            forall|j: int| 0 <= j < i ==> is_path_element_char(s@[j]),
        decreases n - i,
    {
        let c = s.get_char(i);
        let ok = ('a' <= c && c <= 'z') || ('A' <= c && c <= 'Z') || ('0' <= c && c <= '9') || c
            == '_';
        if !ok {
            return false;
        }
        i += 1;
    }
    true
}

/// The object path under which one request is addressable, derived from the
/// caller's identity and its `handle_token`.
pub open spec fn request_path(sender: Seq<char>, token: Seq<char>) -> Seq<char> {
    "/org/freedesktop/portal/desktop/request/"@ + sanitized_sender(sender) + "/"@ + token
}

/// Builds the request object path; a caller identity or token that does not
/// sanitize to legal path elements yields nothing.
pub fn make_request_path(sender: &str, token: &str) -> (r: Option<String>)
    ensures
        r matches Some(p) ==> p@ == request_path(sender@, token@),
        r is Some <==> valid_path_element(sanitized_sender(sender@)) && valid_path_element(
            token@,
        ),
{
    let san = sanitize_sender(sender);
    if !check_path_element(san.as_str()) {
        return None;
    }
    if !check_path_element(token) {
        return None;
    }
    let p = String::from_str("/org/freedesktop/portal/desktop/request/").concat(
        san.as_str(),
    ).concat("/").concat(token);
    proof {
        assert(p@ =~= request_path(sender@, token@));
    }
    Some(p)
}

/// The channel between the inbound-call context and the scheduler: a FIFO
/// queue of request descriptors, drained by non-blocking polls.
pub struct ReqQueue {
    pub items: Vec<Req>,
}

impl View for ReqQueue {
    type V = Seq<ReqV>;

    open spec fn view(&self) -> Seq<ReqV> {
        self.items@.map_values(|r: Req| r@)
    }
}

impl ReqQueue {
    /// An empty queue.
    pub fn new() -> (q: ReqQueue)
        ensures
            q@ == Seq::<ReqV>::empty(),
    {
        let q = ReqQueue { items: Vec::new() };
        proof {
            assert(q@ =~= Seq::<ReqV>::empty());
        }
        q
    }

    /// Appends a request descriptor; the queue keeps arrival order.
    pub fn send(&mut self, req: Req)
        ensures
            final(self)@ == old(self)@.push(req@),
    {
        self.items.push(req);
        proof {
            assert(self@ =~= old(self)@.push(req@));
        }
    }

    /// How many request descriptors are pending.
    pub fn len(&self) -> (n: usize)
        ensures
            n == self@.len(),
    {
        self.items.len()
    }

    /// Non-blocking poll: the oldest descriptor, or nothing at once when the
    /// queue is empty. An empty queue is not an error.
    pub fn try_recv(&mut self) -> (r: Option<Req>)
        ensures
            old(self)@.len() == 0 ==> r is None && final(self)@ == old(self)@,
            old(self)@.len() > 0 ==> {
                &&& r matches Some(req) && req@ == old(self)@[0]
                &&& final(self)@ == old(self)@.drop_first()
            },
    {
        if self.items.len() == 0 {
            return None;
        }
        let req = self.items.remove(0);
        proof {
            assert(self@ =~= old(self)@.drop_first());
        }
        Some(req)
    }
}

/// The `handle_token` option: the string under the `handle_token` key, or
/// nothing when the key is absent or its value is not a string.
pub open spec fn token_of(opts: Seq<(String, OptValue)>) -> Option<Seq<char>>
    decreases opts.len(),
{
    if opts.len() == 0 {
        None
    } else if opts[0].0@ == "handle_token"@ {
        match opts[0].1 {
            OptValue::Str(s) => Some(s@),
            OptValue::Other => None,
        }
    } else {
        token_of(opts.drop_first())
    }
}

/// Extracts the caller-supplied `handle_token` from the options.
pub fn handle_token_of(options: &Vec<(String, OptValue)>) -> (r: Option<String>)
    ensures
        r matches Some(t) ==> token_of(options@) == Some(t@),
        r is None ==> token_of(options@) is None,
{
    let key = String::from_str("handle_token");
    proof {
        assert(options@.skip(0) =~= options@);
    }
    let mut i: usize = 0;
    while i < options.len()
        invariant
            i <= options@.len(),
            key@ == "handle_token"@,
            token_of(options@) == token_of(options@.skip(i as int)),
        decreases options@.len() - i,
    {
        proof {
            assert(options@.skip(i as int)[0] == options@[i as int]);
            assert(options@.skip(i as int).drop_first() =~= options@.skip(i + 1 as int));
        }
        if options[i].0 == key {
            match &options[i].1 {
                OptValue::Str(s) => {
                    let t = s.clone();
                    return Some(t);
                },
                OptValue::Other => {
                    return None;
                },
            }
        }
        i += 1;
    }
    proof {
        assert(options@.skip(options@.len() as int) =~= Seq::<(String, OptValue)>::empty());
    }
    None
}

/// The shared state of the portal service: the object registry and the
/// channel toward the window scheduler.
pub struct FilePortal {
    pub registry: Registry,
    pub queue: ReqQueue,
}

impl FilePortal {
    /// Every queued request is registered, and no two open identities —
    /// queued or not — collide.
    pub open spec fn wf(self) -> bool {
        &&& self.registry.wf()
        &&& forall|i: int|
            0 <= i < self.queue@.len() ==> self.registry.registered(#[trigger] self.queue@[i].path)
        &&& forall|i: int, j: int|
            0 <= i < j < self.queue@.len() ==> self.queue@[i].path != self.queue@[j].path
    }
}

/// A portal with nothing registered and nothing pending.
pub fn make_file_portal() -> (p: FilePortal)
    ensures
        p.wf(),
        p.registry@.len() == 0,
        p.queue@.len() == 0,
{
    FilePortal { registry: Registry::new(), queue: ReqQueue::new() }
}

impl FilePortal {
    /// The `OpenFile` method boundary. A well-formed call derives the request
    /// object path from the caller's identity and its `handle_token`,
    /// registers it, and queues a request descriptor for the scheduler; the
    /// derived path is returned to the caller. A call without a usable token,
    /// or whose identity does not form a legal object path, is rejected as
    /// malformed; a colliding identity is rejected as a registration
    /// failure. A rejected call leaves the portal untouched.
    pub fn open_file(&mut self, sender: &str, title: &str, options: &Vec<(String, OptValue)>) -> (r:
        Result<String, CallError>)
        requires
            old(self).wf(),
        ensures
            final(self).wf(),
            match r {
                Ok(path) => {
                    &&& token_of(options@) matches Some(tok)
                    &&& valid_path_element(sanitized_sender(sender@))
                    &&& valid_path_element(token_of(options@).unwrap())
                    &&& path@ == request_path(sender@, token_of(options@).unwrap())
                    &&& !old(self).registry.registered(path@)
                    &&& final(self).registry@ == old(self).registry@.push(path@)
                    &&& final(self).queue@ == old(self).queue@.push(
                        ReqV { title: title@, path: path@ },
                    )
                },
                Err(CallError::MalformedRequest) => {
                    &&& {
                        ||| token_of(options@) is None
                        ||| !valid_path_element(sanitized_sender(sender@))
                        ||| !valid_path_element(token_of(options@).unwrap())
                    }
                    &&& *final(self) == *old(self)
                },
                Err(CallError::RegistrationFailure) => {
                    &&& token_of(options@) matches Some(tok)
                    &&& valid_path_element(sanitized_sender(sender@))
                    &&& valid_path_element(token_of(options@).unwrap())
                    &&& old(self).registry.registered(
                        request_path(sender@, token_of(options@).unwrap()),
                    )
                    &&& *final(self) == *old(self)
                },
            },
    {
        let token = match handle_token_of(options) {
            Some(t) => t,
            None => {
                return Err(CallError::MalformedRequest);
            },
        };
        let path = match make_request_path(sender, token.as_str()) {
            Some(p) => p,
            None => {
                return Err(CallError::MalformedRequest);
            },
        };
        let registered_path = path.clone();
        match self.registry.register(registered_path) {
            Ok(()) => {},
            Err(_) => {
                return Err(CallError::RegistrationFailure);
            },
        }
        let req = Req { title: String::from_str(title), path: path.clone() };
        self.queue.send(req);
        proof {
            let newp = path@;
            let oldq = old(self).queue@;
            assert forall|i: int|
                0 <= i < self.queue@.len() implies self.registry.registered(
                #[trigger] self.queue@[i].path,
            ) by {
                assert(self.registry@ == old(self).registry@.push(newp));
                assert(self.registry@[self.registry@.len() - 1] == newp);
                if i < oldq.len() {
                    assert(self.queue@[i] == oldq[i]);
                    let k = choose|k: int|
                        0 <= k < old(self).registry@.len() && old(self).registry@[k] == oldq[i].path;
                    assert(self.registry@[k] == oldq[i].path);
                } else {
                    assert(self.queue@[i].path == newp);
                }
            }
            assert forall|i: int, j: int|
                0 <= i < j < self.queue@.len() implies self.queue@[i].path
                != self.queue@[j].path by {
                if j == oldq.len() {
                    assert(self.queue@[j].path == newp);
                    assert(old(self).registry.registered(oldq[i].path));
                }
            }
        }
        Ok(path)
    }
}

/// The minimal IPC-addressable object standing for one open request. It only
/// has to accept a caller's `Close` call and to carry the terminal signal;
/// both the marshalling and the signal transport live outside the library.
pub struct RequestPortalFacade;

impl RequestPortalFacade {
    /// `Close` on a request object: accepted and deliberately without effect.
    pub fn close(&self) {
    }
}

} // verus!
