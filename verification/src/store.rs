//! The four credential-store operations, as pure read-modify-write steps on
//! a decoded `SecretMap`. The caller fetches the blob before and writes the
//! whole map back after, so every operation here is total on the in-memory
//! map and fully specified.

use vstd::prelude::*;

use crate::CredError;
use crate::codec::{
    CredentialRecord, RegistryCredentials, decode_record, encode_record, encode_record_text,
    lemma_record_round_trip, spec_decode_record,
};
use crate::entries::{
    SecretMap, insert_entry, lemma_lookup_insert, lemma_lookup_remove, lookup, remove_key,
};

verus! {

/// What looking a URL up in a member list yields: `NotFound` where the URL
/// is absent, `Format` where its entry is no credential record, else the
/// username and secret.
pub open spec fn spec_get(es: Seq<(Seq<char>, Seq<char>)>, url: Seq<char>) -> Result<
    (Seq<char>, Seq<char>),
    CredError,
> {
    match lookup(es, url) {
        None => Err(CredError::NotFound),
        Some(v) => match spec_decode_record(v) {
            None => Err(CredError::Format),
            Some(p) => Ok(p),
        },
    }
}

/// Looks `url` up and decodes its record. No write is performed.
pub fn get_credentials(m: &SecretMap, url: &str) -> (r: Result<CredentialRecord, CredError>)
    ensures
        (r is Ok) == (spec_get(m.entries_view(), url@) is Ok),
        r is Ok ==> r->Ok_0.username@ == (spec_get(m.entries_view(), url@)->Ok_0).0
            && r->Ok_0.secret@ == (spec_get(m.entries_view(), url@)->Ok_0).1,
        r is Err ==> r->Err_0 == spec_get(m.entries_view(), url@)->Err_0,
{
    match m.lookup(url) {
        None => Err(CredError::NotFound),
        Some(v) => match decode_record(v.as_str()) {
            Err(_) => Err(CredError::Format),
            Ok(rec) => Ok(rec),
        },
    }
}

/// Encodes the record and stores it under its URL, last writer wins: the
/// value is replaced in place where the URL is known, appended where new.
pub fn store_credentials(m: &mut SecretMap, creds: &RegistryCredentials)
    requires
        old(m).wf(),
    ensures
        final(m).wf(),
        final(m).entries_view() == insert_entry(
            old(m).entries_view(),
            creds.server_url@,
            encode_record_text(creds.record.username@, creds.record.secret@),
        ),
{
    let value = encode_record(&creds.record);
    m.insert(creds.server_url.as_str(), value);
}

/// Drops the entry stored under `url`. Fails with `NotFound`, leaving the
/// map unchanged, where the URL is absent or its entry is no genuine
/// credential record.
pub fn erase_credentials(m: &mut SecretMap, url: &str) -> (r: Result<(), CredError>)
    requires
        old(m).wf(),
    ensures
        final(m).wf(),
        (r is Ok) == (spec_get(old(m).entries_view(), url@) is Ok),
        r is Ok ==> final(m).entries_view() == remove_key(old(m).entries_view(), url@),
        r is Err ==> r->Err_0 == CredError::NotFound && *final(m) == *old(m),
{
    match m.lookup(url) {
        None => Err(CredError::NotFound),
        Some(v) => match decode_record(v.as_str()) {
            Err(_) => Err(CredError::NotFound),
            Ok(_) => {
                let _ = m.remove(url);
                Ok(())
            },
        },
    }
}

/// The username listing of a member list: each entry whose record decodes
/// contributes its URL and username, in order; entries that do not decode
/// are skipped; no secret appears.
pub open spec fn listed(es: Seq<(Seq<char>, Seq<char>)>) -> Seq<(Seq<char>, Seq<char>)>
    decreases es.len(),
{
    if es.len() == 0 {
        Seq::empty()
    } else {
        match spec_decode_record(es[0].1) {
            Some(p) => seq![(es[0].0, p.0)] + listed(es.drop_first()),
            None => listed(es.drop_first()),
        }
    }
}

/// Lists every registry URL with its username. Best effort: entries that do
/// not decode as credential records are silently skipped, and secrets are
/// never returned.
pub fn list_usernames(m: &SecretMap) -> (r: Vec<(String, String)>)
    ensures
        r@.map_values(|p: (String, String)| (p.0@, p.1@)) == listed(m.entries_view()),
{
    let ghost view = m.entries_view();
    let n = m.len();
    let mut out: Vec<(String, String)> = Vec::new();
    proof {
        assert(view.skip(0) =~= view);
        assert(out@.map_values(|p: (String, String)| (p.0@, p.1@)) =~= Seq::<
            (Seq<char>, Seq<char>),
        >::empty());
    }
    let mut i: usize = 0;
    while i < n
        invariant
            n as nat == view.len(),
            view == m.entries_view(),
            i <= n,
            out@.map_values(|p: (String, String)| (p.0@, p.1@)) + listed(view.skip(i as int))
                == listed(view),
        decreases n - i,
    {
        let ghost suf = view.skip(i as int);
        let ghost before = out@.map_values(|p: (String, String)| (p.0@, p.1@));
        proof {
            assert(suf[0] == view[i as int]);
            assert(suf.drop_first() =~= view.skip(i as int + 1));
        }
        let e = m.entry_at(i);
        match decode_record(e.1.as_str()) {
            Ok(rec) => {
                out.push((e.0, rec.username));
                proof {
                    let p = spec_decode_record(view[i as int].1)->0;
                    assert(out@.map_values(|p: (String, String)| (p.0@, p.1@)) =~= before.push(
                        (view[i as int].0, p.0),
                    ));
                    assert(before.push((view[i as int].0, p.0)) + listed(view.skip(i as int + 1))
                        =~= before + (seq![(view[i as int].0, p.0)] + listed(
                        view.skip(i as int + 1),
                    )));
                }
            },
            Err(_) => {},
        }
        i += 1;
    }
    proof {
        assert(view.skip(n as int) =~= Seq::<(Seq<char>, Seq<char>)>::empty());
        assert(out@.map_values(|p: (String, String)| (p.0@, p.1@)) + Seq::<
            (Seq<char>, Seq<char>),
        >::empty() =~= out@.map_values(|p: (String, String)| (p.0@, p.1@)));
    }
    out
}

/// Storing a record and then getting the same URL yields exactly that
/// record, on any map.
pub proof fn lemma_store_then_get(
    es: Seq<(Seq<char>, Seq<char>)>,
    url: Seq<char>,
    u: Seq<char>,
    s: Seq<char>,
)
    ensures
        spec_get(insert_entry(es, url, encode_record_text(u, s)), url) == Ok::<
            (Seq<char>, Seq<char>),
            CredError,
        >((u, s)),
{
    lemma_lookup_insert(es, url, encode_record_text(u, s), url);
    lemma_record_round_trip(u, s);
}

/// After erasing a URL, getting it fails with `NotFound`, on any map.
pub proof fn lemma_erase_then_get(es: Seq<(Seq<char>, Seq<char>)>, url: Seq<char>)
    ensures
        spec_get(remove_key(es, url), url) == Err::<(Seq<char>, Seq<char>), CredError>(
            CredError::NotFound,
        ),
{
    lemma_lookup_remove(es, url, url);
}

/// Storing twice under one URL keeps only the later record: a get after the
/// second store yields it.
pub proof fn lemma_store_overwrites(
    es: Seq<(Seq<char>, Seq<char>)>,
    url: Seq<char>,
    u1: Seq<char>,
    s1: Seq<char>,
    u2: Seq<char>,
    s2: Seq<char>,
)
    ensures
        spec_get(
            insert_entry(
                insert_entry(es, url, encode_record_text(u1, s1)),
                url,
                encode_record_text(u2, s2),
            ),
            url,
        ) == Ok::<(Seq<char>, Seq<char>), CredError>((u2, s2)),
{
    lemma_store_then_get(insert_entry(es, url, encode_record_text(u1, s1)), url, u2, s2);
}

/// Getting from the empty map fails with `NotFound`, never with `Format`.
pub proof fn lemma_get_empty(url: Seq<char>)
    ensures
        spec_get(Seq::empty(), url) == Err::<(Seq<char>, Seq<char>), CredError>(
            CredError::NotFound,
        ),
{
}

} // verus!
