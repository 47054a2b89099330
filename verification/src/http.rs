//! Message data model: errors, methods, versions, header values, the ordered
//! header map, and the assembled request / response structures.

use vstd::prelude::*;

pub mod parser;

verus! {

/// One error kind per failed grammar production.
#[derive(Debug, PartialEq, Eq, Structural, Clone, Copy)]
pub enum HTTPError {
    MethodParseError,
    ResourceParseError,
    VersionParseError,
    MalformedHeaderLineError,
    BodyParsingError,
    StatusCodeParseError,
    StatusReasonParseError,
}

impl HTTPError {
    /// The name of the error, as specification-level text.
    pub open spec fn name(&self) -> Seq<char> {
        match self {
            HTTPError::MethodParseError => "MethodParseError"@,
            HTTPError::ResourceParseError => "ResourceParseError"@,
            HTTPError::VersionParseError => "VersionParseError"@,
            HTTPError::MalformedHeaderLineError => "MalformedHeaderLineError"@,
            HTTPError::BodyParsingError => "BodyParsingError"@,
            HTTPError::StatusCodeParseError => "StatusCodeParseError"@,
            HTTPError::StatusReasonParseError => "StatusReasonParseError"@,
        }
    }

    /// The error's name: one per failed grammar production.
    pub fn description(&self) -> (r: &'static str)
        ensures
            r@ == self.name(),
    {
        match self {
            HTTPError::MethodParseError => "MethodParseError",
            HTTPError::ResourceParseError => "ResourceParseError",
            HTTPError::VersionParseError => "VersionParseError",
            HTTPError::MalformedHeaderLineError => "MalformedHeaderLineError",
            HTTPError::BodyParsingError => "BodyParsingError",
            HTTPError::StatusCodeParseError => "StatusCodeParseError",
            HTTPError::StatusReasonParseError => "StatusReasonParseError",
        }
    }
}

/// The closed set of recognized request methods, matched by exact
/// case-sensitive byte equality.
#[derive(Debug, PartialEq, Eq, Structural, Clone, Copy)]
pub enum RequestType {
    GET,
    HEAD,
    POST,
    PUT,
    DELETE,
    TRACE,
    OPTIONS,
    CONNECT,
    PATCH,
}

/// The closed set of recognized protocol versions.  The ordering only
/// matters for comparison by callers, never for parsing.
#[derive(Debug, PartialEq, Eq, Structural, Clone, Copy, PartialOrd)]
pub enum Version {
    Http09,
    Http10,
    Http11,
    Http20,
}

/// A header value: absent, a single token, or an ordered list of tokens.
#[derive(Debug, PartialEq, Clone)]
pub enum HeaderVal {
    Absent,
    Single(String),
    Multi(Vec<String>),
}

/// Specification-level counterpart of [`HeaderVal`].
pub enum HeaderValModel {
    Absent,
    Single(Seq<char>),
    Multi(Seq<Seq<char>>),
}

impl View for HeaderVal {
    type V = HeaderValModel;

    open spec fn view(&self) -> HeaderValModel {
        match self {
            HeaderVal::Absent => HeaderValModel::Absent,
            HeaderVal::Single(s) => HeaderValModel::Single(s@),
            HeaderVal::Multi(l) => HeaderValModel::Multi(l.deep_view()),
        }
    }
}

/// The concatenation of a sequence of strings, in order and with no
/// separator.
pub open spec fn concat_all(l: Seq<Seq<char>>) -> Seq<char>
    decreases l.len(),
{
    if l.len() == 0 {
        Seq::empty()
    } else {
        concat_all(l.drop_last()) + l.last()
    }
}

/// The single string a header value flattens to: the token itself for a
/// single value, the separator-free concatenation for a list, and the empty
/// string for an absent value.
pub open spec fn flat_str(m: HeaderValModel) -> Seq<char> {
    match m {
        HeaderValModel::Absent => Seq::empty(),
        HeaderValModel::Single(s) => s,
        HeaderValModel::Multi(l) => concat_all(l),
    }
}

impl HeaderVal {
    /// Flattens the value into one string.
    pub fn to_string(self) -> (r: String)
        ensures
            r@ == flat_str(self@),
    {
        match self {
            HeaderVal::Absent => String::new(),
            HeaderVal::Single(s) => s,
            HeaderVal::Multi(l) => {
                let mut acc = String::new();
                let mut i: usize = 0;
                while i < l.len()
                    invariant
                        i <= l.len(),
                        acc@ == concat_all(l.deep_view().take(i as int)),
                    decreases l.len() - i,
                {
                    proof {
                        assert(l.deep_view().take(i + 1).drop_last() =~= l.deep_view().take(
                            i as int,
                        ));
                        assert(l.deep_view().take(i + 1).last() == l[i as int]@);
                    }
                    acc = acc.concat(l[i].as_str());
                    i = i + 1;
                }
                proof {
                    assert(l.deep_view().take(l.len() as int) =~= l.deep_view());
                }
                acc
            },
        }
    }
}

/// One header-map entry at the specification level: a key and its value.
pub type HeaderEntry = (Seq<char>, HeaderValModel);

/// No two entries share a key.
pub open spec fn keys_unique(hs: Seq<HeaderEntry>) -> bool {
    forall|i: int, j: int| 0 <= i < j < hs.len() ==> hs[i].0 != hs[j].0
}

/// The value stored under `k`, if any.
pub open spec fn lookup(hs: Seq<HeaderEntry>, k: Seq<char>) -> Option<HeaderValModel>
    decreases hs.len(),
{
    if hs.len() == 0 {
        None
    } else if hs[0].0 == k {
        Some(hs[0].1)
    } else {
        lookup(hs.drop_first(), k)
    }
}

/// Binding `k` to `v`: the first entry with key `k` is replaced in place,
/// and a fresh key is appended at the end, so insertion order is kept.
pub open spec fn insert_entry(hs: Seq<HeaderEntry>, k: Seq<char>, v: HeaderValModel) -> Seq<
    HeaderEntry,
>
    decreases hs.len(),
{
    if hs.len() == 0 {
        seq![(k, v)]
    } else if hs[0].0 == k {
        seq![(k, v)] + hs.drop_first()
    } else {
        seq![hs[0]] + insert_entry(hs.drop_first(), k, v)
    }
}

/// An ordered mapping from header name (case as received) to header value.
/// Keys are unique: a repeated header name overwrites the prior value.
#[derive(Debug, Clone)]
pub struct Headers {
    entries: Vec<(String, HeaderVal)>,
}

impl View for Headers {
    type V = Seq<HeaderEntry>;

    closed spec fn view(&self) -> Seq<HeaderEntry> {
        self.entries@.map_values(|p: (String, HeaderVal)| (p.0@, p.1@))
    }
}

impl Headers {
    /// Every key occurs at most once.
    pub open spec fn wf(&self) -> bool {
        keys_unique(self@)
    }

    /// An empty header map.
    pub fn new() -> (r: Headers)
        ensures
            r@ == Seq::<HeaderEntry>::empty(),
            r.wf(),
    {
        let r = Headers { entries: Vec::new() };
        proof {
            assert(r@ =~= Seq::<HeaderEntry>::empty());
        }
        r
    }

    /// How many distinct header names are stored.
    pub fn len(&self) -> (r: usize)
        ensures
            r == self@.len(),
    {
        self.entries.len()
    }

    /// Stores `val` under `key`, overwriting any prior value for that key.
    pub fn insert(&mut self, key: String, val: HeaderVal)
        requires
            old(self).wf(),
        ensures
            final(self)@ == insert_entry(old(self)@, key@, val@),
            final(self).wf(),
    {
        let ghost hs = self@;
        let ghost kv = key@;
        let mut i: usize = 0;
        while i < self.entries.len()
            invariant
                i <= self.entries.len(),
                *self == *old(self),
                hs == self@,
                kv == key@,
                keys_unique(hs),
                forall|j: int| 0 <= j < i ==> hs[j].0 != kv,
            decreases self.entries.len() - i,
        {
            if self.entries[i].0 == key {
                proof {
                    assert(hs[i as int] == (self.entries@[i as int].0@, self.entries@[i as int].1@));
                    assert(hs[i as int].0 == kv);
                }
                self.entries.set(i, (key, val));
                proof {
                    lemma_insert_entry_found(hs, kv, val@, i as int);
                    assert(self@ =~= hs.update(i as int, (kv, val@)));
                    assert(keys_unique(hs));
                    assert forall|a: int, b: int|
                        0 <= a < b < self@.len() implies self@[a].0 != self@[b].0 by {
                        assert(hs[a].0 != hs[b].0);
                        assert(self@[a].0 == hs[a].0);
                        assert(self@[b].0 == hs[b].0);
                    }
                    assert(keys_unique(self@));
                }
                return ;
            }
            i = i + 1;
        }
        self.entries.push((key, val));
        proof {
            lemma_insert_entry_absent(hs, kv, val@);
            assert(self@ =~= hs.push((kv, val@)));
        }
    }

    /// Looks up the value stored under `key`.
    pub fn get(&self, key: &str) -> (r: Option<&HeaderVal>)
        ensures
            match r {
                Some(v) => lookup(self@, key@) == Some(v@),
                None => lookup(self@, key@) is None,
            },
    {
        let k: String = key.to_owned();
        proof {
            assert(self@.skip(0) =~= self@);
        }
        let mut i: usize = 0;
        while i < self.entries.len()
            invariant
                i <= self.entries.len(),
                k@ == key@,
                lookup(self@, key@) == lookup(self@.skip(i as int), key@),
            decreases self.entries.len() - i,
        {
            if self.entries[i].0 == k {
                proof {
                    assert(self@.skip(i as int)[0] == self@[i as int]);
                }
                return Some(&self.entries[i].1);
            }
            proof {
                assert(self@.skip(i as int).drop_first() =~= self@.skip(i + 1));
            }
            i = i + 1;
        }
        proof {
            assert(self@.skip(self.entries.len() as int) =~= Seq::<HeaderEntry>::empty());
        }
        None
    }
}

proof fn lemma_insert_entry_found(hs: Seq<HeaderEntry>, k: Seq<char>, v: HeaderValModel, i: int)
    requires
        0 <= i < hs.len(),
        hs[i].0 == k,
        forall|j: int| 0 <= j < i ==> hs[j].0 != k,
    ensures
        insert_entry(hs, k, v) =~= hs.update(i, (k, v)),
    decreases i,
{
    if i == 0 {
        assert(insert_entry(hs, k, v) == seq![(k, v)] + hs.drop_first());
    } else {
        assert(hs[0].0 != k);
        lemma_insert_entry_found(hs.drop_first(), k, v, i - 1);
        assert(insert_entry(hs, k, v) == seq![hs[0]] + insert_entry(hs.drop_first(), k, v));
        assert(hs.drop_first().update(i - 1, (k, v)) =~= hs.update(i, (k, v)).drop_first());
    }
}

proof fn lemma_insert_entry_absent(hs: Seq<HeaderEntry>, k: Seq<char>, v: HeaderValModel)
    requires
        forall|j: int| 0 <= j < hs.len() ==> hs[j].0 != k,
    ensures
        insert_entry(hs, k, v) =~= hs.push((k, v)),
    decreases hs.len(),
{
    if hs.len() == 0 {
    } else {
        lemma_insert_entry_absent(hs.drop_first(), k, v);
        assert(hs.drop_first().push((k, v)) =~= hs.push((k, v)).drop_first());
    }
}

/// An assembled request message.
#[derive(Debug)]
pub struct Request {
    pub method: RequestType,
    pub version: Version,
    pub resource: String,
    pub headers: Headers,
    pub body: Option<String>,
}

/// An assembled response message.
#[derive(Debug)]
pub struct Response {
    pub version: Version,
    pub status_code: isize,
    pub reason: String,
    pub headers: Headers,
    pub body: Option<String>,
}

/// Specification-level counterpart of [`Request`].
pub struct RequestModel {
    pub method: RequestType,
    pub version: Version,
    pub resource: Seq<char>,
    pub headers: Seq<HeaderEntry>,
    pub body: Option<Seq<char>>,
}

/// Specification-level counterpart of [`Response`].
pub struct ResponseModel {
    pub version: Version,
    pub status_code: int,
    pub reason: Seq<char>,
    pub headers: Seq<HeaderEntry>,
    pub body: Option<Seq<char>>,
}

impl View for Request {
    type V = RequestModel;

    open spec fn view(&self) -> RequestModel {
        RequestModel {
            method: self.method,
            version: self.version,
            resource: self.resource@,
            headers: self.headers@,
            body: match self.body {
                Some(ref s) => Some(s@),
                None => None,
            },
        }
    }
}

impl View for Response {
    type V = ResponseModel;

    open spec fn view(&self) -> ResponseModel {
        ResponseModel {
            version: self.version,
            status_code: self.status_code as int,
            reason: self.reason@,
            headers: self.headers@,
            body: match self.body {
                Some(ref s) => Some(s@),
                None => None,
            },
        }
    }
}

} // verus!
