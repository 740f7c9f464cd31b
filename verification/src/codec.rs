//! The secret-map codec: between the remote blob's text and a `SecretMap`,
//! and between one entry's text and a `CredentialRecord`. The wire field
//! names `ServerURL`, `Username` and `Secret` are fixed by the credential
//! helper protocol.

use vstd::prelude::*;

use crate::CredError;
use crate::entries::{
    SecretMap, count_key, distinct_keys, insert_entry, lookup, lemma_insert_entry_absent,
};
use crate::json::{
    chars_of, encode_entries, encode_entry, encode_object, encode_object_pretty,
    lemma_encode_entries_pretty_snoc, lemma_encode_entries_snoc, lemma_parse_encode_object,
    pairs_view, parse_object, parse_object_exec, push_quoted, string_from_chars,
};
use crate::json::encode_entries_pretty;
use crate::json::{
    lemma_object_to_record_object, parse_record_object, parse_record_object_exec,
    record_pairs_view,
};
use vstd::string::StrSliceExecFns;

verus! {

/// One registry's stored credentials.
#[derive(Debug, Clone, PartialEq, Eq)]
pub struct CredentialRecord {
    pub username: String,
    pub secret: String,
}

/// The wire-level unit the protocol exchanges: a registry URL with its
/// credential record.
#[derive(Debug, Clone, PartialEq, Eq)]
pub struct RegistryCredentials {
    pub server_url: String,
    pub record: CredentialRecord,
}

/// The members of a serialized credential record, in wire order.
pub open spec fn record_entries(u: Seq<char>, s: Seq<char>) -> Seq<(Seq<char>, Seq<char>)> {
    seq![("Username"@, u), ("Secret"@, s)]
}

/// The canonical text of a credential record.
pub open spec fn encode_record_text(u: Seq<char>, s: Seq<char>) -> Seq<char> {
    encode_object(record_entries(u, s))
}

/// The fields a parsed entry yields as a credential record: exactly one
/// `Username` member and exactly one `Secret` member, both strings.
pub open spec fn record_fields(es: Seq<(Seq<char>, Option<Seq<char>>)>) -> Option<
    (Seq<char>, Seq<char>),
> {
    if count_key(es, "Username"@) == 1 && count_key(es, "Secret"@) == 1 {
        match (lookup(es, "Username"@), lookup(es, "Secret"@)) {
            (Some(Some(u)), Some(Some(sv))) => Some((u, sv)),
            _ => None,
        }
    } else {
        None
    }
}

/// What decoding an entry's text yields: username and secret, or nothing.
pub open spec fn spec_decode_record(s: Seq<char>) -> Option<(Seq<char>, Seq<char>)> {
    match parse_record_object(s) {
        None => None,
        Some(es) => record_fields(es),
    }
}

/// The members of a serialized `RegistryCredentials`, in wire order.
pub open spec fn registry_entries(url: Seq<char>, u: Seq<char>, s: Seq<char>) -> Seq<
    (Seq<char>, Seq<char>),
> {
    seq![("ServerURL"@, url), ("Username"@, u), ("Secret"@, s)]
}

/// The canonical text of a `RegistryCredentials`.
pub open spec fn encode_registry_text(url: Seq<char>, u: Seq<char>, s: Seq<char>) -> Seq<char> {
    encode_object(registry_entries(url, u, s))
}

/// The fields a parsed protocol payload yields: exactly one of each of
/// `ServerURL`, `Username` and `Secret`.
pub open spec fn registry_fields(es: Seq<(Seq<char>, Option<Seq<char>>)>) -> Option<
    (Seq<char>, Seq<char>, Seq<char>),
> {
    if count_key(es, "ServerURL"@) == 1 && count_key(es, "Username"@) == 1 && count_key(
        es,
        "Secret"@,
    ) == 1 {
        match (lookup(es, "ServerURL"@), lookup(es, "Username"@), lookup(es, "Secret"@)) {
            (Some(Some(url)), Some(Some(u)), Some(Some(sv))) => Some((url, u, sv)),
            _ => None,
        }
    } else {
        None
    }
}

/// What decoding a protocol payload yields.
pub open spec fn spec_decode_registry(s: Seq<char>) -> Option<(Seq<char>, Seq<char>, Seq<char>)> {
    match parse_record_object(s) {
        None => None,
        Some(es) => registry_fields(es),
    }
}

/// Left-to-right, last-writer-wins build of a member list from parsed
/// members, starting from `acc`.
pub open spec fn fold_entries_from(
    acc: Seq<(Seq<char>, Seq<char>)>,
    es: Seq<(Seq<char>, Seq<char>)>,
    i: nat,
) -> Seq<(Seq<char>, Seq<char>)>
    decreases es.len() - i,
{
    if i >= es.len() {
        acc
    } else {
        fold_entries_from(insert_entry(acc, es[i as int].0, es[i as int].1), es, (i + 1) as nat)
    }
}

/// What decoding the blob's text yields: the member list of the map, built
/// in textual order with the last writer winning on a repeated key.
pub open spec fn spec_decode_map(s: Seq<char>) -> Option<Seq<(Seq<char>, Seq<char>)>> {
    match parse_object(s) {
        None => None,
        Some(es) => Some(fold_entries_from(Seq::empty(), es, 0)),
    }
}

/// Character-for-character equality of a character vector and a string.
fn chars_eq_str(v: &Vec<char>, s: &str) -> (r: bool)
    ensures
        r == (v@ == s@),
{
    let n = s.unicode_len();
    if v.len() != n {
        return false;
    }
    let mut i: usize = 0;
    while i < n
        invariant
            n as nat == s@.len(),
            v@.len() == n,
            i <= n,
            forall|j: int| 0 <= j < i ==> v@[j] == s@[j],
        decreases n - i,
    {
        if v[i] != s.get_char(i) {
            return false;
        }
        i += 1;
    }
    proof {
        assert(v@ =~= s@);
    }
    true
}

/// The value of the one member named `name`, or nothing where the name is
/// missing or repeated. The inner option is the member's value: a string,
/// or nothing where it held some other kind of JSON value.
fn find_field(ps: &Vec<(Vec<char>, Option<Vec<char>>)>, name: &str) -> (r: Option<Option<String>>)
    ensures
        (r is Some) == (count_key(record_pairs_view(ps@), name@) == 1),
        r is Some ==> lookup(record_pairs_view(ps@), name@) is Some && ((r->0 is Some) == (lookup(
            record_pairs_view(ps@),
            name@,
        )->0 is Some)) && (r->0 is Some ==> lookup(record_pairs_view(ps@), name@)->0->0
            == r->0->0@),
{
    let ghost pv = record_pairs_view(ps@);
    let n = ps.len();
    proof {
        assert(pv.skip(0) =~= pv);
    }
    let mut found: Option<Option<String>> = None;
    let mut i: usize = 0;
    while i < n
        invariant
            n == ps.len(),
            i <= n,
            pv == record_pairs_view(ps@),
            pv.len() == n,
            found is None ==> count_key(pv, name@) == count_key(pv.skip(i as int), name@)
                && lookup(pv, name@) == lookup(pv.skip(i as int), name@),
            found is Some ==> count_key(pv, name@) == 1 + count_key(pv.skip(i as int), name@)
                && lookup(pv, name@) is Some && ((found->0 is Some) == (lookup(pv, name@)->0
                is Some)) && (found->0 is Some ==> lookup(pv, name@)->0->0 == found->0->0@),
        decreases n - i,
    {
        let ghost suf = pv.skip(i as int);
        proof {
            assert(suf[0] == pv[i as int]);
            assert(suf.drop_first() =~= pv.skip(i as int + 1));
        }
        let p = &ps[i];
        if chars_eq_str(&p.0, name) {
            if found.is_some() {
                return None;
            }
            let captured: Option<String> = match &p.1 {
                Some(v) => Some(string_from_chars(v)),
                None => None,
            };
            found = Some(captured);
        }
        i += 1;
    }
    proof {
        assert(pv.skip(n as int) =~= Seq::<(Seq<char>, Option<Seq<char>>)>::empty());
    }
    found
}

/// Decodes one map entry's text as a credential record. Fails exactly where
/// the text is not a JSON object carrying one string `Username` member and
/// one string `Secret` member; other members may hold any JSON value and
/// are ignored.
pub fn decode_record(entry: &str) -> (r: Result<CredentialRecord, CredError>)
    ensures
        (r is Ok) == (spec_decode_record(entry@) is Some),
        r is Ok ==> r->Ok_0.username@ == (spec_decode_record(entry@)->0).0 && r->Ok_0.secret@ == (
        spec_decode_record(entry@)->0).1,
        r is Err ==> r->Err_0 == CredError::Format,
{
    let cs = chars_of(entry);
    match parse_record_object_exec(&cs) {
        None => Err(CredError::Format),
        Some(ps) => match (find_field(&ps, "Username"), find_field(&ps, "Secret")) {
            (Some(Some(u)), Some(Some(s))) => Ok(CredentialRecord { username: u, secret: s }),
            _ => Err(CredError::Format),
        },
    }
}

/// Decodes a protocol payload as a `RegistryCredentials`. Fails exactly
/// where the text is not a JSON object carrying one of each of `ServerURL`,
/// `Username` and `Secret` as string members; other members may hold any
/// JSON value and are ignored.
pub fn decode_registry_credentials(input: &str) -> (r: Result<RegistryCredentials, CredError>)
    ensures
        (r is Ok) == (spec_decode_registry(input@) is Some),
        r is Ok ==> r->Ok_0.server_url@ == (spec_decode_registry(input@)->0).0
            && r->Ok_0.record.username@ == (spec_decode_registry(input@)->0).1
            && r->Ok_0.record.secret@ == (spec_decode_registry(input@)->0).2,
        r is Err ==> r->Err_0 == CredError::Format,
{
    let cs = chars_of(input);
    match parse_record_object_exec(&cs) {
        None => Err(CredError::Format),
        Some(ps) => match (
            find_field(&ps, "ServerURL"),
            find_field(&ps, "Username"),
            find_field(&ps, "Secret"),
        ) {
            (Some(Some(url)), Some(Some(u)), Some(Some(s))) => Ok(
                RegistryCredentials {
                    server_url: url,
                    record: CredentialRecord { username: u, secret: s },
                },
            ),
            _ => Err(CredError::Format),
        },
    }
}

/// Encodes a credential record as its canonical entry text.
pub fn encode_record(r: &CredentialRecord) -> (out: String)
    ensures
        out@ == encode_record_text(r.username@, r.secret@),
{
    let mut cs: Vec<char> = Vec::new();
    cs.push('{');
    push_quoted(&mut cs, "Username");
    cs.push(':');
    push_quoted(&mut cs, r.username.as_str());
    cs.push(',');
    push_quoted(&mut cs, "Secret");
    cs.push(':');
    push_quoted(&mut cs, r.secret.as_str());
    cs.push('}');
    proof {
        let es = record_entries(r.username@, r.secret@);
        assert(es.drop_first() =~= seq![("Secret"@, r.secret@)]);
        assert(encode_entries(es.drop_first()) == encode_entry(("Secret"@, r.secret@)));
        assert(cs@ =~= encode_object(es));
    }
    string_from_chars(&cs)
}

/// Encodes a `RegistryCredentials` as its canonical protocol text.
pub fn encode_registry_credentials(c: &RegistryCredentials) -> (out: String)
    ensures
        out@ == encode_registry_text(c.server_url@, c.record.username@, c.record.secret@),
{
    let mut cs: Vec<char> = Vec::new();
    cs.push('{');
    push_quoted(&mut cs, "ServerURL");
    cs.push(':');
    push_quoted(&mut cs, c.server_url.as_str());
    cs.push(',');
    push_quoted(&mut cs, "Username");
    cs.push(':');
    push_quoted(&mut cs, c.record.username.as_str());
    cs.push(',');
    push_quoted(&mut cs, "Secret");
    cs.push(':');
    push_quoted(&mut cs, c.record.secret.as_str());
    cs.push('}');
    proof {
        let es = registry_entries(c.server_url@, c.record.username@, c.record.secret@);
        let tail = es.drop_first();
        assert(tail =~= seq![("Username"@, c.record.username@), ("Secret"@, c.record.secret@)]);
        assert(tail.drop_first() =~= seq![("Secret"@, c.record.secret@)]);
        assert(encode_entries(tail.drop_first()) == encode_entry(("Secret"@, c.record.secret@)));
        assert(encode_entries(tail) == encode_entry(tail[0]) + seq![','] + encode_entries(
            tail.drop_first(),
        ));
        assert(cs@ =~= encode_object(es));
    }
    string_from_chars(&cs)
}

/// Decodes the blob's text as a secret map. Fails exactly where the text is
/// not a JSON object whose values are all strings.
pub fn decode_map(raw: &str) -> (r: Result<SecretMap, CredError>)
    ensures
        (r is Ok) == (spec_decode_map(raw@) is Some),
        r is Ok ==> r->Ok_0.wf() && r->Ok_0.entries_view() == spec_decode_map(raw@)->0,
        r is Err ==> r->Err_0 == CredError::Format,
{
    let cs = chars_of(raw);
    match parse_object_exec(&cs) {
        None => Err(CredError::Format),
        Some(ps) => {
            let ghost pes = pairs_view(ps@);
            let n = ps.len();
            let mut m = SecretMap::new();
            let mut i: usize = 0;
            while i < n
                invariant
                    n == ps.len(),
                    i <= n,
                    pes == pairs_view(ps@),
                    pes.len() == n,
                    m.wf(),
                    fold_entries_from(m.entries_view(), pes, i as nat) == fold_entries_from(
                        Seq::empty(),
                        pes,
                        0,
                    ),
                decreases n - i,
            {
                let p = &ps[i];
                let key = string_from_chars(&p.0);
                let val = string_from_chars(&p.1);
                m.insert(key.as_str(), val);
                i += 1;
            }
            Ok(m)
        },
    }
}

/// Encodes a secret map as its canonical blob text.
pub fn encode_map(m: &SecretMap) -> (out: String)
    ensures
        out@ == encode_object(m.entries_view()),
{
    let ghost view = m.entries_view();
    let n = m.len();
    let mut cs: Vec<char> = Vec::new();
    cs.push('{');
    let mut i: usize = 0;
    while i < n
        invariant
            n as nat == view.len(),
            view == m.entries_view(),
            i <= n,
            cs@ == seq!['{'] + encode_entries(view.subrange(0, i as int)),
        decreases n - i,
    {
        if i > 0 {
            cs.push(',');
        }
        let e = m.entry_at(i);
        push_quoted(&mut cs, e.0.as_str());
        cs.push(':');
        push_quoted(&mut cs, e.1.as_str());
        proof {
            let done = view.subrange(0, i as int);
            lemma_encode_entries_snoc(done, view[i as int]);
            assert(done.push(view[i as int]) =~= view.subrange(0, i as int + 1));
            assert(cs@ =~= seq!['{'] + encode_entries(view.subrange(0, i as int + 1)));
        }
        i += 1;
    }
    cs.push('}');
    proof {
        assert(view.subrange(0, n as int) =~= view);
        assert(cs@ =~= encode_object(view));
    }
    string_from_chars(&cs)
}

/// Encodes a username listing as the pretty JSON object text that the
/// `list` command prints: one `"url": "username"` member per line.
pub fn encode_username_map(listing: &Vec<(String, String)>) -> (out: String)
    ensures
        out@ == encode_object_pretty(listing@.map_values(|p: (String, String)| (p.0@, p.1@))),
{
    let ghost view = listing@.map_values(|p: (String, String)| (p.0@, p.1@));
    let n = listing.len();
    let mut cs: Vec<char> = Vec::new();
    cs.push('{');
    if n == 0 {
        cs.push('}');
        proof {
            assert(cs@ =~= encode_object_pretty(view));
        }
        return string_from_chars(&cs);
    }
    cs.push('\n');
    let mut i: usize = 0;
    while i < n
        invariant
            n == listing.len(),
            view == listing@.map_values(|p: (String, String)| (p.0@, p.1@)),
            view.len() == n,
            i <= n,
            cs@ == seq!['{', '\n'] + encode_entries_pretty(view.subrange(0, i as int)),
        decreases n - i,
    {
        if i > 0 {
            cs.push(',');
            cs.push('\n');
        }
        cs.push(' ');
        cs.push(' ');
        let p = &listing[i];
        push_quoted(&mut cs, p.0.as_str());
        cs.push(':');
        cs.push(' ');
        push_quoted(&mut cs, p.1.as_str());
        proof {
            let done = view.subrange(0, i as int);
            lemma_encode_entries_pretty_snoc(done, view[i as int]);
            assert(done.push(view[i as int]) =~= view.subrange(0, i as int + 1));
            assert(cs@ =~= seq!['{', '\n'] + encode_entries_pretty(
                view.subrange(0, i as int + 1),
            ));
        }
        i += 1;
    }
    cs.push('\n');
    cs.push('}');
    proof {
        assert(view.subrange(0, n as int) =~= view);
        assert(cs@ =~= encode_object_pretty(view));
    }
    string_from_chars(&cs)
}

/// Folding a member list whose keys are all distinct, starting from an
/// accumulator none of them touches, appends it unchanged.
proof fn lemma_fold_identity_from(
    acc: Seq<(Seq<char>, Seq<char>)>,
    es: Seq<(Seq<char>, Seq<char>)>,
    i: nat,
)
    requires
        i <= es.len(),
        distinct_keys(acc),
        forall|p: int, q: int| i <= p < q < es.len() ==> (#[trigger] es[p]).0 != (#[trigger] es[q]).0,
        forall|j: int, l: int|
            0 <= j < acc.len() && i <= l < es.len() ==> (#[trigger] acc[j]).0 != (#[trigger] es[l]).0,
    ensures
        fold_entries_from(acc, es, i) == acc + es.skip(i as int),
    decreases es.len() - i,
{
    if i >= es.len() {
        assert(acc + es.skip(i as int) =~= acc);
    } else {
        let k = es[i as int].0;
        let v = es[i as int].1;
        assert(forall|j: int| 0 <= j < acc.len() ==> (#[trigger] acc[j]).0 != k);
        lemma_insert_entry_absent(acc, k, v);
        let acc2 = acc.push((k, v));
        assert(distinct_keys(acc2)) by {
            assert(forall|p: int|
                0 <= p < acc.len() ==> (#[trigger] acc2[p]) == acc[p]);
            assert(acc2[acc.len() as int].0 == k);
        }
        assert(forall|j: int, l: int|
            0 <= j < acc2.len() && i + 1 <= l < es.len() ==> (#[trigger] acc2[j]).0 != (
            #[trigger] es[l]).0);
        lemma_fold_identity_from(acc2, es, (i + 1) as nat);
        assert(acc2 + es.skip(i as int + 1) =~= acc + es.skip(i as int));
    }
}

/// Round trip of the whole blob: any well-formed secret map's canonical
/// encoding decodes back to exactly the same member list.
pub proof fn lemma_map_round_trip(es: Seq<(Seq<char>, Seq<char>)>)
    requires
        distinct_keys(es),
    ensures
        spec_decode_map(encode_object(es)) == Some(es),
{
    lemma_parse_encode_object(es);
    lemma_fold_identity_from(Seq::empty(), es, 0);
    assert(Seq::<(Seq<char>, Seq<char>)>::empty() + es.skip(0) =~= es);
}

/// Round trip of one record: the canonical encoding of any username and
/// secret decodes back to exactly that pair.
pub proof fn lemma_record_round_trip(u: Seq<char>, s: Seq<char>)
    ensures
        spec_decode_record(encode_record_text(u, s)) == Some((u, s)),
{
    let es = record_entries(u, s);
    lemma_parse_encode_object(es);
    lemma_object_to_record_object(encode_record_text(u, s));
    let ms = parse_record_object(encode_record_text(u, s))->0;
    assert(ms =~= seq![("Username"@, Some(u)), ("Secret"@, Some(s))]);
    let tail = seq![("Secret"@, Some(s))];
    assert(ms.drop_first() =~= tail);
    assert(tail.drop_first() =~= Seq::<(Seq<char>, Option<Seq<char>>)>::empty());
    assert("Username"@ != "Secret"@) by {
        reveal_strlit("Username");
        reveal_strlit("Secret");
        assert("Username"@.len() == 8);
        assert("Secret"@.len() == 6);
    }
    assert(count_key(tail, "Username"@) == 0) by {
        assert(count_key(Seq::<(Seq<char>, Option<Seq<char>>)>::empty(), "Username"@) == 0);
    }
    assert(count_key(ms, "Username"@) == 1);
    assert(count_key(tail, "Secret"@) == 1) by {
        assert(count_key(Seq::<(Seq<char>, Option<Seq<char>>)>::empty(), "Secret"@) == 0);
    }
    assert(count_key(ms, "Secret"@) == 1);
    assert(lookup(ms, "Username"@) == Some(Some(u)));
    assert(lookup(ms, "Secret"@) == Some(Some(s))) by {
        assert(lookup(tail, "Secret"@) == Some(Some(s)));
    }
}

} // verus!
