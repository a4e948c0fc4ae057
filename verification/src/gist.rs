//! The gist request itself: named file entries, the aggregate request
//! with its visibility and authentication flags, payload serialization,
//! and the contract of the one network operation.

use vstd::prelude::*;
use vstd::string::*;

use crate::error::Error;
use crate::json::append_entry;
use crate::json::append_json_string;
use crate::json::basename;
use crate::json::basename_str;
use crate::json::build_pairs;
use crate::json::entries_json;
use crate::json::file_json;
use crate::json::file_map;
use crate::json::insert_file_pair;
use crate::json::insert_pair;
use crate::json::lemma_build_pairs_from_map;
use crate::json::lemma_build_pairs_sorted;
use crate::json::lemma_entries_json_push;
use crate::json::lemma_insert_pair_contains;
use crate::json::lemma_last_write_wins;
use crate::json::lemma_sorted_keys_distinct;
use crate::json::pairs_view;
use crate::json::sorted_keys;

verus! {

/// One named content blob to be included in a gist.
pub struct GistFile {
    /// The identifier, typically a filesystem path; only the part after
    /// the last `/` is used as the key in the serialized payload.
    pub name: String,
    /// The full text content, held eagerly in memory.
    pub contents: String,
}

impl GistFile {
    /// A new entry with the given name and empty contents.
    pub fn new(name: String) -> (r: GistFile)
        ensures
            r.name@ == name@,
            r.contents@ == Seq::<char>::empty(),
    {
        GistFile { name, contents: String::new() }
    }
}

/// A gist creation request: zero or more files plus visibility and
/// authentication flags.
pub struct Gist {
    /// When set, no credential is attached to the outgoing request.
    pub anonymous: bool,
    /// Serialized as the `public` field of the payload.
    pub public: bool,
    /// The files, in insertion order; serialization key-sorts them.
    pub files: Vec<GistFile>,
    /// The bearer credential; empty when operating anonymously.
    pub token: String,
}

/// Whether a request holds no files at all.
pub open spec fn spec_is_empty(g: Gist) -> bool {
    g.files@.len() == 0
}

impl Gist {
    /// Builds a request. A credential must be supplied unless the request
    /// is anonymous; its absence otherwise is a configuration error,
    /// reported before any I/O can happen. An anonymous request keeps no
    /// credential: its token is set to the empty string even when one was
    /// supplied.
    pub fn new(public: bool, anonymous: bool, token: Option<String>) -> (r: Result<Gist, Error>)
        ensures
            r is Ok <==> (anonymous || token is Some),
            r matches Ok(g) ==> g.public == public && g.anonymous == anonymous && g.files@.len() == 0,
            anonymous ==> (r matches Ok(g) ==> g.token@ == Seq::<char>::empty()),
            !anonymous ==> (token matches Some(t) ==> (r matches Ok(g) ==> g.token@ == t@)),
            r matches Err(e) ==> e == Error::ConfigurationError && !anonymous && token is None,
    {
        if anonymous {
            Ok(Gist { anonymous, public, files: Vec::new(), token: String::new() })
        } else {
            match token {
                Some(t) => Ok(Gist { anonymous, public, files: Vec::new(), token: t }),
                None => Err(Error::ConfigurationError),
            }
        }
    }

    /// True exactly when the request holds no files.
    pub fn is_empty(&self) -> (r: bool)
        ensures
            r == spec_is_empty(*self),
    {
        self.files.len() == 0
    }

    /// Appends a file. Names are not checked for collisions here: if two
    /// entries share a final path segment, the later one wins at
    /// serialization time.
    pub fn add_file(&mut self, gist: GistFile)
        ensures
            final(self).files@ == old(self).files@.push(gist),
            final(self).public == old(self).public,
            final(self).anonymous == old(self).anonymous,
            final(self).token == old(self).token,
    {
        self.files.push(gist);
    }
}

/// A request that holds no files is empty; after one more file it no
/// longer is.
pub proof fn lemma_emptiness(g0: Gist, g1: Gist, f: GistFile)
    requires
        g0.files@.len() == 0,
        g1.files@ == g0.files@.push(f),
    ensures
        spec_is_empty(g0),
        !spec_is_empty(g1),
{
}

} // verus!

verus! {

// ---------------------------------------------------------------------------
// Payload serialization
// ---------------------------------------------------------------------------

/// The (name, contents) views of a sequence of files.
pub open spec fn file_views(files: Seq<GistFile>) -> Seq<(Seq<char>, Seq<char>)> {
    files.map_values(|f: GistFile| (f.name@, f.contents@))
}

/// The JSON form of a boolean.
pub open spec fn bool_json(b: bool) -> Seq<char> {
    if b {
        "true"@
    } else {
        "false"@
    }
}

/// The complete serialized payload of a request: a files object keyed by
/// final path segments in ascending order, then the public flag.
pub open spec fn spec_json(g: Gist) -> Seq<char> {
    "{\"files\":{"@ + entries_json(build_pairs(file_views(g.files@))) + "},\"public\":"@ + bool_json(
        g.public,
    ) + "}"@
}

impl GistFile {
    /// Serializes this file's value object: a single `content` key mapped
    /// to the raw text, JSON-escaped and otherwise untouched.
    pub fn to_json(&self) -> (r: String)
        ensures
            r@ == file_json(self.contents@),
    {
        let mut out = String::new();
        out.append("{\"content\":");
        append_json_string(&mut out, self.contents.as_str());
        out.append("}");
        proof {
            assert(out@ =~= file_json(self.contents@));
        }
        out
    }
}

impl Gist {
    /// Serializes the whole request. Keys are the final path segment of
    /// each file's name, sorted ascending; when two files collide on a
    /// key, the later-added one wins.
    pub fn to_json(&self) -> (r: String)
        ensures
            r@ == spec_json(*self),
    {
        let mut pairs: Vec<(String, String)> = Vec::new();
        let mut idx: usize = 0;
        proof {
            assert(file_views(self.files@.subrange(0, 0)) =~= Seq::<(Seq<char>, Seq<char>)>::empty());
            assert(pairs_view(pairs@) =~= Seq::<(Seq<char>, Seq<char>)>::empty());
        }
        while idx < self.files.len()
            invariant
                idx <= self.files@.len(),
                pairs_view(pairs@) == build_pairs(file_views(self.files@.subrange(0, idx as int))),
            decreases self.files@.len() - idx,
        {
            let name = basename_str(self.files[idx].name.as_str());
            let contents = self.files[idx].contents.clone();
            insert_file_pair(&mut pairs, name, contents);
            proof {
                let fv = file_views(self.files@.subrange(0, idx as int));
                let fv1 = file_views(self.files@.subrange(0, idx as int + 1));
                assert(fv1.drop_last() =~= fv);
                assert(fv1.last() == (self.files@[idx as int].name@, self.files@[idx as int].contents@));
                assert(build_pairs(fv1) == insert_pair(
                    build_pairs(fv),
                    basename(self.files@[idx as int].name@),
                    self.files@[idx as int].contents@,
                ));
            }
            idx = idx + 1;
        }
        proof {
            assert(self.files@.subrange(0, self.files@.len() as int) =~= self.files@);
        }
        let mut out = String::new();
        out.append("{\"files\":{");
        let ghost entries = pairs_view(pairs@);
        let mut i: usize = 0;
        proof {
            assert(entries.subrange(0, 0) =~= Seq::<(Seq<char>, Seq<char>)>::empty());
            assert(out@ =~= "{\"files\":{"@ + entries_json(entries.subrange(0, 0)));
        }
        while i < pairs.len()
            invariant
                i <= pairs@.len(),
                entries == pairs_view(pairs@),
                entries.len() == pairs@.len(),
                entries == build_pairs(file_views(self.files@)),
                out@ == "{\"files\":{"@ + entries_json(entries.subrange(0, i as int)),
            decreases pairs@.len() - i,
        {
            if i > 0 {
                out.append(",");
            }
            append_entry(&mut out, pairs[i].0.as_str(), pairs[i].1.as_str());
            proof {
                lemma_entries_json_push(entries.subrange(0, i as int), entries[i as int]);
                assert(entries.subrange(0, i as int + 1) =~= entries.subrange(0, i as int).push(
                    entries[i as int],
                ));
                assert(entries[i as int] == (pairs@[i as int].0@, pairs@[i as int].1@));
                assert(out@ =~= "{\"files\":{"@ + entries_json(entries.subrange(0, i as int + 1)));
            }
            i = i + 1;
        }
        proof {
            assert(entries.subrange(0, entries.len() as int) =~= entries);
        }
        out.append("},\"public\":");
        if self.public {
            out.append("true");
        } else {
            out.append("false");
        }
        out.append("}");
        proof {
            assert(out@ =~= spec_json(*self));
        }
        out
    }
}

} // verus!

verus! {

// ---------------------------------------------------------------------------
// The network operation, split at the transport boundary
// ---------------------------------------------------------------------------

/// Everything the transport needs to perform the gist creation call. The
/// host application sends exactly this request and reports back an
/// `HttpOutcome`.
pub struct HttpRequest {
    /// The request method.
    pub method: String,
    /// The fixed creation endpoint.
    pub url: String,
    /// The `User-Agent` header value.
    pub user_agent: String,
    /// The `Content-Type` header value.
    pub content_type: String,
    /// The bearer credential for the `Authorization` header, absent for
    /// anonymous submissions.
    pub auth_bearer: Option<String>,
    /// The serialized payload sent as the request body.
    pub body: String,
}

/// What came back from the transport: a status line with a body, or no
/// answer at all.
pub enum HttpOutcome {
    /// The endpoint answered with a status code and a response body.
    Response { status: u16, body: String },
    /// No response was obtained: DNS, TLS, connect or stream failure.
    TransportFailure,
}

/// How a submission outcome is judged: a 201 response succeeds with its
/// body passed through verbatim, any other status is an API error, and a
/// transport failure is a network error.
pub open spec fn response_result(outcome: HttpOutcome, r: Result<String, Error>) -> bool {
    match outcome {
        HttpOutcome::Response { status, body } => if status == 201 {
            r matches Ok(b) && b@ == body@
        } else {
            r == Err::<String, Error>(Error::ApiError)
        },
        HttpOutcome::TransportFailure => r == Err::<String, Error>(Error::NetworkError),
    }
}

impl Gist {
    /// Builds the outgoing request: the fixed endpoint and client
    /// identity, the JSON payload as the body, and the bearer credential
    /// exactly when the submission is not anonymous.
    pub fn create_request(&self) -> (r: HttpRequest)
        ensures
            r.method@ == "POST"@,
            r.url@ == "https://api.github.com/gists"@,
            r.user_agent@ == "Pepito Gist"@,
            r.content_type@ == "application/json"@,
            self.anonymous ==> r.auth_bearer is None,
            !self.anonymous ==> (r.auth_bearer matches Some(t) && t@ == self.token@),
            r.body@ == spec_json(*self),
    {
        HttpRequest {
            method: String::from_str("POST"),
            url: String::from_str("https://api.github.com/gists"),
            user_agent: String::from_str("Pepito Gist"),
            content_type: String::from_str("application/json"),
            auth_bearer: if self.anonymous {
                None
            } else {
                Some(self.token.clone())
            },
            body: self.to_json(),
        }
    }

    /// Completes a submission from the transport's outcome: the body of a
    /// 201 response is returned unchanged, any other status is reported
    /// as an API error, and a transport failure as a network error.
    pub fn create(&self, outcome: HttpOutcome) -> (r: Result<String, Error>)
        ensures
            response_result(outcome, r),
    {
        match outcome {
            HttpOutcome::Response { status, body } => {
                if status == 201 {
                    Ok(body)
                } else {
                    Err(Error::ApiError)
                }
            },
            HttpOutcome::TransportFailure => Err(Error::NetworkError),
        }
    }
}

// ---------------------------------------------------------------------------
// Laws of serialization
// ---------------------------------------------------------------------------

/// The payload carries the `public` flag verbatim: whatever the files and
/// whatever the other flags, the serialized form is the files object
/// followed by `"public":` and exactly `true` or `false` according to the
/// flag.
pub proof fn lemma_public_verbatim(g: Gist)
    ensures
        spec_json(g) == "{\"files\":{"@ + entries_json(build_pairs(file_views(g.files@)))
            + "},\"public\":"@ + (if g.public {
            "true"@
        } else {
            "false"@
        }) + "}"@,
{
}

/// Serialization is deterministic under name collisions: when two files
/// resolve to the same final path segment, the pairs behind the files
/// object are exactly those that result had the earlier file never been
/// added — the later content is the one present under the shared key.
pub proof fn lemma_collision_last_write_wins(files: Seq<GistFile>, f1: GistFile, f2: GistFile)
    requires
        basename(f1.name@) == basename(f2.name@),
    ensures
        build_pairs(file_views(files.push(f1).push(f2))) == build_pairs(file_views(files.push(f2))),
        build_pairs(file_views(files.push(f1).push(f2))).contains(
            (basename(f2.name@), f2.contents@),
        ),
{
    assert(file_views(files.push(f1).push(f2)) =~= file_views(files).push(
        (f1.name@, f1.contents@),
    ).push((f2.name@, f2.contents@)));
    assert(file_views(files.push(f2)) =~= file_views(files).push((f2.name@, f2.contents@)));
    lemma_last_write_wins(file_views(files), (f1.name@, f1.contents@), (f2.name@, f2.contents@));
    let fv2 = file_views(files).push((f2.name@, f2.contents@));
    assert(fv2.drop_last() =~= file_views(files));
    assert(fv2.last() == (f2.name@, f2.contents@));
    assert(build_pairs(fv2) == insert_pair(
        build_pairs(file_views(files)),
        basename(f2.name@),
        f2.contents@,
    ));
    lemma_insert_pair_contains(build_pairs(file_views(files)), basename(f2.name@), f2.contents@);
}

/// The files object never repeats a key: the pairs it is emitted from are
/// in strictly ascending key order, so the keys at two different
/// positions always differ.
pub proof fn lemma_keys_unique(files: Seq<GistFile>)
    ensures
        sorted_keys(build_pairs(file_views(files))),
        forall|i: int, j: int|
            0 <= i < j < build_pairs(file_views(files)).len() ==> build_pairs(file_views(files))[i].0
                != build_pairs(file_views(files))[j].0,
{
    lemma_build_pairs_sorted(file_views(files));
    lemma_sorted_keys_distinct(build_pairs(file_views(files)));
}

} // verus!


verus! {

/// Serialization is deterministic: the payload depends only on the
/// `public` flag and on the final-segment map of the files — the mapping
/// from each final path segment to the contents of the last file carrying
/// it. Two requests that agree on those serialize byte-identically,
/// whatever their insertion orders, directory prefixes, overwritten
/// entries, credentials or anonymity.
pub proof fn lemma_serialization_deterministic(g1: Gist, g2: Gist)
    requires
        g1.public == g2.public,
        file_map(file_views(g1.files@)) == file_map(file_views(g2.files@)),
    ensures
        spec_json(g1) == spec_json(g2),
{
    lemma_build_pairs_from_map(file_views(g1.files@), file_views(g2.files@));
}

} // verus!
