//! The content-addressed object store: object kinds, object ids, and the
//! two operations that write and read an object.

use crate::reference::{resolve, RefValue};
use crate::store::TextMap;
use crate::text::{first_index, from_chars, lemma_first_index_is, same, subrange, to_chars};
use sha1::{Digest, Sha1};
use vstd::prelude::*;
use vstd::utf8::encode_utf8;

verus! {

/// The three kinds of object.
#[derive(Debug, Clone, Copy, PartialEq, Eq, PartialOrd, Ord, Structural)]
pub enum TypeObject {
    Blob,
    Tree,
    Commit,
}

/// Why an operation on a repository failed.
#[derive(Debug, Clone, Copy, PartialEq, Eq, Structural)]
pub enum Error {
    /// No object, or no reference, is stored under the name asked for.
    NotFound,
    /// The stored object is of another kind than the one asked for.
    TypeMismatch,
    /// A stored object does not have the form of its kind.
    Corrupt,
    /// The name is neither a reference nor an object id.
    NameResolutionFailure,
    /// A chain of symbolic references leads back into itself.
    CycleDetected,
}

/// A repository: its objects by id, and its references by name.
pub struct Repository {
    /// Object id to the stored text, which is the kind's tag, a NUL
    /// character and the content.
    pub objects: TextMap,
    /// Reference name to the stored text: an object id, or `ref:` and the
    /// name of another reference.
    pub refs: TextMap,
}

/// The SHA-1 digest of `data`.
pub uninterp spec fn sha1_digest(data: Seq<u8>) -> Seq<u8>;

/// The lower-case hexadecimal digit for `n`, which is below 16.
pub open spec fn hex_digit(n: int) -> char {
    seq!['0', '1', '2', '3', '4', '5', '6', '7', '8', '9', 'a', 'b', 'c', 'd', 'e', 'f'][n]
}

/// Two lower-case hexadecimal digits for each byte, the high half first.
pub open spec fn hex_chars(bytes: Seq<u8>) -> Seq<char> {
    Seq::new(
        2 * bytes.len(),
        |i: int|
            if i % 2 == 0 {
                hex_digit(bytes[i / 2] as int / 16)
            } else {
                hex_digit(bytes[i / 2] as int % 16)
            },
    )
}

/// Whether `c` is a hexadecimal digit, of either case.
pub open spec fn is_hex_digit(c: char) -> bool {
    ('0' <= c && c <= '9') || ('a' <= c && c <= 'f') || ('A' <= c && c <= 'F')
}

/// Whether `s` has the form of an object id: forty hexadecimal digits.
pub open spec fn is_oid(s: Seq<char>) -> bool {
    s.len() == 40 && forall|i: int| 0 <= i < s.len() ==> is_hex_digit(#[trigger] s[i])
}

/// The text stored for an object: the kind's tag, NUL, the content.
pub open spec fn object_text(kind: TypeObject, content: Seq<char>) -> Seq<char> {
    kind.tag() + seq!['\0'] + content
}

/// The id of the object of kind `kind` with content `content`: the SHA-1
/// digest of the UTF-8 bytes of its stored text, in hexadecimal.
pub open spec fn oid_of(kind: TypeObject, content: Seq<char>) -> Seq<char> {
    hex_chars(sha1_digest(encode_utf8(object_text(kind, content))))
}

/// The kind whose tag is `tag`, if there is one.
pub open spec fn kind_of_tag(tag: Seq<char>) -> Option<TypeObject> {
    if tag == TypeObject::Blob.tag() {
        Some(TypeObject::Blob)
    } else if tag == TypeObject::Tree.tag() {
        Some(TypeObject::Tree)
    } else if tag == TypeObject::Commit.tag() {
        Some(TypeObject::Commit)
    } else {
        None
    }
}

/// What reading the object `oid` as a `expected` gives from `objects`.
pub open spec fn read_object(
    objects: Map<Seq<char>, Seq<char>>,
    oid: Seq<char>,
    expected: TypeObject,
) -> Result<Seq<char>, Error> {
    if !objects.contains_key(oid) {
        Err(Error::NotFound)
    } else {
        let text = objects[oid];
        let i = first_index(text, '\0');
        if i >= text.len() {
            Err(Error::Corrupt)
        } else {
            match kind_of_tag(text.take(i)) {
                None => Err(Error::Corrupt),
                Some(kind) => if kind != expected {
                    Err(Error::TypeMismatch)
                } else {
                    Ok(text.skip(i + 1))
                },
            }
        }
    }
}

/// Whether the outcome `r` is the outcome `expected`, the text taken by
/// its characters.
pub open spec fn same_outcome(r: Result<String, Error>, expected: Result<Seq<char>, Error>) -> bool {
    match r {
        Ok(s) => expected == Ok::<Seq<char>, Error>(s@),
        Err(e) => expected == Err::<Seq<char>, Error>(e),
    }
}

impl TypeObject {
    /// The tag that stands for the kind in stored objects and tree lines.
    pub open spec fn tag(self) -> Seq<char> {
        match self {
            TypeObject::Blob => seq!['b', 'l', 'o', 'b'],
            TypeObject::Tree => seq!['t', 'r', 'e', 'e'],
            TypeObject::Commit => seq!['c', 'o', 'm', 'm', 'i', 't'],
        }
    }

    /// The kind's tag as characters.
    pub fn tag_chars(&self) -> (v: Vec<char>)
        ensures
            v@ == self.tag(),
    {
        let v = match self {
            TypeObject::Blob => vec!['b', 'l', 'o', 'b'],
            TypeObject::Tree => vec!['t', 'r', 'e', 'e'],
            TypeObject::Commit => vec!['c', 'o', 'm', 'm', 'i', 't'],
        };
        assert(v@ =~= self.tag());
        v
    }

    /// The kind's tag: `blob`, `tree` or `commit`.
    pub fn to_string(&self) -> (s: String)
        ensures
            s@ == self.tag(),
    {
        from_chars(&self.tag_chars())
    }

    /// The kind that the characters `tag` name, if they name one.
    pub fn from_chars(tag: &Vec<char>) -> (r: Option<TypeObject>)
        ensures
            r == kind_of_tag(tag@),
    {
        if same(tag, &TypeObject::Blob.tag_chars()) {
            Some(TypeObject::Blob)
        } else if same(tag, &TypeObject::Tree.tag_chars()) {
            Some(TypeObject::Tree)
        } else if same(tag, &TypeObject::Commit.tag_chars()) {
            Some(TypeObject::Commit)
        } else {
            None
        }
    }

    /// The kind that `s` names: `blob`, `tree` or `commit`; an error for
    /// every other string.
    pub fn from_str(s: &str) -> (r: Result<TypeObject, ()>)
        ensures
            match r {
                Ok(kind) => kind_of_tag(s@) == Some(kind),
                Err(_) => kind_of_tag(s@) is None,
            },
    {
        match TypeObject::from_chars(&to_chars(s)) {
            Some(kind) => Ok(kind),
            None => Err(()),
        }
    }
}

/// Writes the SHA-1 digest of `data` to `out`, which holds twenty bytes.
/// This is `Sha1::new`, `update` and `finalize` of the `sha1` crate; the
/// digest is a function of `data` alone and is twenty bytes long.
#[verifier::external_body]
pub fn sha1_hash(data: &[u8], out: &mut [u8])
    requires
        old(out)@.len() == 20,
    ensures
        final(out)@ == sha1_digest(data@),
        final(out)@.len() == 20,
{
    let mut hasher = Sha1::new();
    hasher.update(data);
    out.copy_from_slice(&hasher.finalize())
}

/// `hex::encode`: each byte becomes two lower-case hexadecimal digits,
/// the high half first.
#[verifier::external_body]
fn hex_encode(bytes: &[u8]) -> (s: String)
    ensures
        s@ == hex_chars(bytes@),
{
    hex::encode(bytes)
}

/// Every character of a hexadecimal encoding is a hexadecimal digit.
pub proof fn lemma_hex_chars(bytes: Seq<u8>)
    ensures
        hex_chars(bytes).len() == 2 * bytes.len(),
        forall|i: int| 0 <= i < hex_chars(bytes).len() ==> is_hex_digit(#[trigger] hex_chars(bytes)[i]),
{
    assert forall|i: int| 0 <= i < hex_chars(bytes).len() implies is_hex_digit(
        #[trigger] hex_chars(bytes)[i],
    ) by {
        let b = bytes[i / 2] as int;
        lemma_hex_digit(b / 16);
        lemma_hex_digit(b % 16);
    }
}

/// Each of the sixteen digits is a hexadecimal digit.
proof fn lemma_hex_digit(n: int)
    requires
        0 <= n < 16,
    ensures
        is_hex_digit(hex_digit(n)),
{
    let digits = seq!['0', '1', '2', '3', '4', '5', '6', '7', '8', '9', 'a', 'b', 'c', 'd', 'e', 'f'];
    assert(forall|k: int| 0 <= k < 16 ==> is_hex_digit(#[trigger] digits[k]));
}

/// The characters of the stored text of an object.
fn object_chars(kind: TypeObject, data: &str) -> (v: Vec<char>)
    ensures
        v@ == object_text(kind, data@),
{
    let mut v = kind.tag_chars();
    v.push('\0');
    let mut content = to_chars(data);
    v.append(&mut content);
    assert(v@ =~= object_text(kind, data@));
    v
}

/// The id of the object whose stored text is `text`.
fn oid_of_text(text: &String) -> (oid: String)
    ensures
        oid@ == hex_chars(sha1_digest(encode_utf8(text@))),
        is_oid(oid@),
{
    let mut digest: Vec<u8> = vec![0u8; 20];
    sha1_hash(text.as_str().as_bytes(), digest.as_mut_slice());
    proof {
        lemma_hex_chars(digest@);
    }
    hex_encode(digest.as_slice())
}

/// Whether the object of kind `kind` with content `content` is stored
/// under its id.
pub open spec fn stored(
    objects: Map<Seq<char>, Seq<char>>,
    kind: TypeObject,
    content: Seq<char>,
) -> bool {
    objects.contains_key(oid_of(kind, content)) && objects[oid_of(kind, content)] == object_text(
        kind,
        content,
    )
}

/// The id of the object of kind `type_obj` with content `data`. Nothing
/// is stored.
pub fn object_id(data: &str, type_obj: TypeObject) -> (oid: String)
    ensures
        oid@ == oid_of(type_obj, data@),
        is_oid(oid@),
{
    oid_of_text(&from_chars(&object_chars(type_obj, data)))
}

/// Whether the object of kind `type_obj` with content `data` is stored
/// under its id: an object that is, reads back as `data`.
pub fn holds_object(repo: &Repository, data: &str, type_obj: TypeObject) -> (r: bool)
    ensures
        r == stored(repo.objects@, type_obj, data@),
        r ==> read_object(repo.objects@, oid_of(type_obj, data@), type_obj) == Ok::<
            Seq<char>,
            Error,
        >(data@),
{
    let text = from_chars(&object_chars(type_obj, data));
    let oid = oid_of_text(&text);
    proof {
        if stored(repo.objects@, type_obj, data@) {
            law_written_reads_back(repo.objects@, type_obj, data@);
            assert(repo.objects@.insert(oid_of(type_obj, data@), object_text(type_obj, data@))
                =~= repo.objects@);
        }
    }
    match repo.objects.get(oid.as_str()) {
        Some(found) => *found == text,
        None => false,
    }
}

/// An empty repository whose `HEAD` names the branch `main`, which does
/// not exist yet.
pub fn init() -> (repo: Repository)
    ensures
        repo.objects@ == Map::<Seq<char>, Seq<char>>::empty(),
        repo.refs@ == Map::<Seq<char>, Seq<char>>::empty().insert(
            "HEAD"@,
            "ref:refs/heads/main"@,
        ),
        repo.objects.key_seq() == Seq::<Seq<char>>::empty(),
        repo.refs.key_seq() == seq!["HEAD"@],
{
    let mut refs = TextMap::new();
    refs.insert("HEAD", "ref:refs/heads/main");
    assert(refs.key_seq() =~= seq!["HEAD"@]);
    Repository { objects: TextMap::new(), refs }
}

/// Stores the object of kind `type_obj` with content `data` under its id
/// and returns the id. The id depends on the kind and the content alone.
/// What was stored under that id is replaced, so that the object reads
/// back as it was written; writing an object twice is writing it once.
pub fn hash_object(repo: &mut Repository, data: &str, type_obj: TypeObject) -> (oid: String)
    ensures
        oid@ == oid_of(type_obj, data@),
        final(repo).objects@ == old(repo).objects@.insert(oid@, object_text(type_obj, data@)),
        final(repo).refs == old(repo).refs,
        read_object(final(repo).objects@, oid@, type_obj) == Ok::<Seq<char>, Error>(data@),
        is_oid(oid@),
{
    let text = from_chars(&object_chars(type_obj, data));
    let oid = oid_of_text(&text);
    repo.objects.insert(oid.as_str(), text.as_str());
    proof {
        law_written_reads_back(old(repo).objects@, type_obj, data@);
    }
    oid
}

/// An object that was just written reads back as its content, whatever
/// the store held before.
pub proof fn law_written_reads_back(
    objects: Map<Seq<char>, Seq<char>>,
    kind: TypeObject,
    content: Seq<char>,
)
    ensures
        read_object(
            objects.insert(oid_of(kind, content), object_text(kind, content)),
            oid_of(kind, content),
            kind,
        ) == Ok::<Seq<char>, Error>(content),
{
    let text = object_text(kind, content);
    let n = kind.tag().len() as int;
    assert(forall|k: int| 0 <= k < n ==> kind.tag()[k] != '\0');
    assert(forall|k: int| 0 <= k < n ==> text[k] == kind.tag()[k]);
    assert(text[n] == '\0');
    lemma_first_index_is(text, '\0', n);
    assert(text.take(n) =~= kind.tag());
    assert(text.skip(n + 1) =~= content);
    lemma_tags_differ();
}

/// The three tags are three different texts.
pub proof fn lemma_tags_differ()
    ensures
        forall|k: TypeObject| kind_of_tag(#[trigger] k.tag()) == Some(k),
{
    assert forall|k: TypeObject| kind_of_tag(#[trigger] k.tag()) == Some(k) by {
        assert(TypeObject::Blob.tag()[0] == 'b');
        assert(TypeObject::Tree.tag()[0] == 't');
        assert(TypeObject::Commit.tag()[0] == 'c');
    }
}

/// Reads the object stored under `oid`, which must be of kind
/// `expected_type`, and returns its content.
pub fn get_object(repo: &Repository, oid: &str, expected_type: TypeObject) -> (r: Result<
    String,
    Error,
>)
    ensures
        same_outcome(r, read_object(repo.objects@, oid@, expected_type)),
{
    let text = match repo.objects.get(oid) {
        Some(text) => to_chars(text.as_str()),
        None => { return Err(Error::NotFound); },
    };
    let mut i: usize = 0;
    while i < text.len() && text[i] != '\0'
        invariant
            i <= text.len(),
            forall|k: int| 0 <= k < i ==> text@[k] != '\0',
        decreases text.len() - i,
    {
        i += 1;
    }
    proof {
        lemma_first_index_is(text@, '\0', i as int);
    }
    if i >= text.len() {
        return Err(Error::Corrupt);
    }
    let tag = subrange(&text, 0, i);
    assert(tag@ == text@.take(i as int));
    match TypeObject::from_chars(&tag) {
        None => Err(Error::Corrupt),
        Some(kind) => {
            if kind != expected_type {
                Err(Error::TypeMismatch)
            } else {
                let content = subrange(&text, i + 1, text.len());
                assert(content@ == text@.skip(i + 1));
                Ok(from_chars(&content))
            }
        },
    }
}

/// The names under which the reference `name` is looked for, in order.
pub open spec fn candidates(name: Seq<char>) -> Seq<Seq<char>> {
    seq![name, "refs/"@ + name, "refs/tags/"@ + name, "refs/heads/"@ + name]
}

/// The id that the first `n` candidates give: that of the first among
/// them that leads to a stored reference, if one does.
pub open spec fn first_match(
    refs: Map<Seq<char>, Seq<char>>,
    names: Seq<Seq<char>>,
    fuel: nat,
) -> Result<Option<Seq<char>>, Error>
    decreases names.len(),
{
    if names.len() == 0 {
        Ok(None)
    } else {
        match resolve(refs, names[0], true, fuel) {
            Err(e) => Err(e),
            Ok(Some(v)) => Ok(Some(v.value)),
            Ok(None) => first_match(refs, names.skip(1), fuel),
        }
    }
}

/// The id that `name` stands for: what the first of its candidates that
/// leads to a stored reference leads to; where none does, `name` itself
/// if it has the form of an id.
pub open spec fn resolve_name(refs: Map<Seq<char>, Seq<char>>, name: Seq<char>, fuel: nat) -> Result<
    Seq<char>,
    Error,
> {
    match first_match(refs, candidates(name), fuel) {
        Err(e) => Err(e),
        Ok(Some(oid)) => Ok(oid),
        Ok(None) => if is_oid(name) {
            Ok(name)
        } else {
            Err(Error::NameResolutionFailure)
        },
    }
}

/// The first candidate that leads to a stored reference decides, in the
/// order of the candidates: the name itself, then the name below
/// `refs/`, `refs/tags/` and `refs/heads/`.
pub proof fn law_first_candidate_wins(
    refs: Map<Seq<char>, Seq<char>>,
    name: Seq<char>,
    fuel: nat,
    i: int,
)
    requires
        0 <= i < 4,
        resolve(refs, candidates(name)[i], true, fuel) matches Ok(Some(_)),
        forall|k: int|
            0 <= k < i ==> resolve(refs, #[trigger] candidates(name)[k], true, fuel) == Ok::<
                Option<crate::reference::RefView>,
                Error,
            >(None),
    ensures
        resolve_name(refs, name, fuel) == Ok::<Seq<char>, Error>(
            resolve(refs, candidates(name)[i], true, fuel)->Ok_0->0.value,
        ),
{
    let all = candidates(name);
    reveal_with_fuel(first_match, 5);
    assert(all.skip(1)[0] == all[1]);
    assert(all.skip(1).skip(1)[0] == all[2]);
    assert(all.skip(1).skip(1).skip(1)[0] == all[3]);
    assert(resolve(refs, all[0], true, fuel) == resolve(refs, all[0], true, fuel));
    if i >= 1 {
        assert(resolve(refs, all[0], true, fuel) == Ok::<Option<crate::reference::RefView>, Error>(None));
    }
    if i >= 2 {
        assert(resolve(refs, all[1], true, fuel) == Ok::<Option<crate::reference::RefView>, Error>(None));
    }
    if i >= 3 {
        assert(resolve(refs, all[2], true, fuel) == Ok::<Option<crate::reference::RefView>, Error>(None));
    }
}

/// A name that no candidate leads to stands for itself where it has the
/// form of an object id, and for nothing else.
pub proof fn law_raw_oid_is_last(refs: Map<Seq<char>, Seq<char>>, name: Seq<char>, fuel: nat)
    requires
        forall|k: int|
            0 <= k < 4 ==> resolve(refs, #[trigger] candidates(name)[k], true, fuel) == Ok::<
                Option<crate::reference::RefView>,
                Error,
            >(None),
    ensures
        is_oid(name) ==> resolve_name(refs, name, fuel) == Ok::<Seq<char>, Error>(name),
        !is_oid(name) ==> resolve_name(refs, name, fuel) == Err::<Seq<char>, Error>(
            Error::NameResolutionFailure,
        ),
{
    let all = candidates(name);
    reveal_with_fuel(first_match, 5);
    assert(all.skip(1)[0] == all[1]);
    assert(all.skip(1).skip(1)[0] == all[2]);
    assert(all.skip(1).skip(1).skip(1)[0] == all[3]);
    assert(all.skip(1).skip(1).skip(1).skip(1).len() == 0);
    assert(resolve(refs, all[0], true, fuel) == Ok::<Option<crate::reference::RefView>, Error>(None));
    assert(resolve(refs, all[1], true, fuel) == Ok::<Option<crate::reference::RefView>, Error>(None));
    assert(resolve(refs, all[2], true, fuel) == Ok::<Option<crate::reference::RefView>, Error>(None));
    assert(resolve(refs, all[3], true, fuel) == Ok::<Option<crate::reference::RefView>, Error>(None));
}

/// Whether `c` is a hexadecimal digit.
fn hex_digit_char(c: char) -> (r: bool)
    ensures
        r == is_hex_digit(c),
{
    ('0' <= c && c <= '9') || ('a' <= c && c <= 'f') || ('A' <= c && c <= 'F')
}

/// Whether `name` has the form of an object id.
fn has_oid_form(name: &Vec<char>) -> (r: bool)
    ensures
        r == is_oid(name@),
{
    if name.len() != 40 {
        return false;
    }
    let mut i: usize = 0;
    while i < name.len()
        invariant
            i <= name.len(),
            name.len() == 40,
            forall|k: int| 0 <= k < i ==> is_hex_digit(#[trigger] name@[k]),
        decreases name.len() - i,
    {
        if !hex_digit_char(name[i]) {
            return false;
        }
        i += 1;
    }
    true
}

/// `prefix` followed by `name`.
pub fn prefixed(prefix: &str, name: &Vec<char>) -> (s: String)
    ensures
        s@ == prefix@ + name@,
{
    let mut v = to_chars(prefix);
    let mut i: usize = 0;
    while i < name.len()
        invariant
            i <= name.len(),
            v@ == prefix@ + name@.take(i as int),
        decreases name.len() - i,
    {
        v.push(name[i]);
        assert(name@.take(i + 1) =~= name@.take(i as int).push(name@[i as int]));
        i += 1;
    }
    assert(name@.take(name.len() as int) =~= name@);
    from_chars(&v)
}

/// The object id that the revision `name` stands for. The name is tried
/// as a reference, then below `refs/`, `refs/tags/` and `refs/heads/`, in
/// that order; the first that leads to a stored reference gives the id.
/// Where none does, a name of forty hexadecimal digits is its own id.
pub fn get_oid(repo: &Repository, name: &str) -> (r: Result<String, Error>)
    ensures
        same_outcome(r, resolve_name(repo.refs@, name@, repo.refs.spec_len())),
{
    let chars = to_chars(name);
    let mut names: Vec<String> = Vec::new();
    names.push(name.to_owned());
    names.push(prefixed("refs/", &chars));
    names.push(prefixed("refs/tags/", &chars));
    names.push(prefixed("refs/heads/", &chars));
    let ghost all = candidates(name@);
    let ghost fuel = repo.refs.spec_len();
    assert(all.skip(0) =~= all);
    let mut i: usize = 0;
    while i < names.len()
        invariant
            i <= names.len(),
            names@.len() == 4,
            all == candidates(name@),
            fuel == repo.refs.spec_len(),
            forall|k: int| 0 <= k < 4 ==> (#[trigger] names@[k])@ == all[k],
            first_match(repo.refs@, all, fuel) == first_match(repo.refs@, all.skip(i as int), fuel),
        decreases names.len() - i,
    {
        proof {
            assert(all.skip(i as int)[0] == all[i as int]);
            assert(all.skip(i as int).skip(1) =~= all.skip(i + 1));
        }
        match RefValue::get_ref(repo, names[i].as_str(), true) {
            Err(e) => { return Err(e); },
            Ok(Some(v)) => { return Ok(v.value); },
            Ok(None) => {},
        }
        i += 1;
    }
    assert(all.skip(4).len() == 0);
    if has_oid_form(&chars) {
        Ok(name.to_owned())
    } else {
        Err(Error::NameResolutionFailure)
    }
}

} // verus!
