use vstd::prelude::*;
use vstd::string::*;

use crate::error::AppError;
use crate::object::S3Config;
use crate::text::{trim_whitespace, trim_ws};

verus! {

/// A looked-up setting, or `NA` when it is not set.
pub open spec fn setting_or_na(value: Option<String>) -> Seq<char> {
    match value {
        Some(v) => v@,
        None => "NA"@,
    }
}

fn get_var(value: Option<String>) -> (r: String)
    ensures
        r@ == setting_or_na(value),
{
    match value {
        Some(v) => v,
        None => "NA".to_string(),
    }
}

/// The version to show, from the value of `CARGO_PKG_VERSION` in the
/// environment (`NA` when unset).
pub fn get_version_var(value: Option<String>) -> (r: String)
    ensures
        r@ == setting_or_na(value),
{
    get_var(value)
}

/// The commit to show, from the value of `BALTI_COMMIT_SHA` in the
/// environment (`NA` when unset).
pub fn get_sha_var(value: Option<String>) -> (r: String)
    ensures
        r@ == setting_or_na(value),
{
    get_var(value)
}

/// The region used when the form leaves it blank.
pub open spec fn form_region(region: Seq<char>) -> Seq<char> {
    if trim_whitespace(region).len() == 0 {
        "auto"@
    } else {
        region
    }
}

/// The values typed into the remote form.
pub struct RemoteForm {
    pub remote_name: String,
    pub access_key_id: String,
    pub secret_access_key: String,
    pub region: String,
    pub endpoint: String,
    pub bucket_name: String,
}

impl RemoteForm {
    /// The form can be saved: every field but the region is filled in.
    pub fn is_valid(&self) -> (r: bool)
        ensures
            r == (self.remote_name@.len() > 0 && self.access_key_id@.len() > 0
                && self.secret_access_key@.len() > 0 && self.bucket_name@.len() > 0
                && self.endpoint@.len() > 0),
    {
        !(self.remote_name.as_str().unicode_len() == 0 || self.access_key_id.as_str().unicode_len() == 0
            || self.secret_access_key.as_str().unicode_len() == 0
            || self.bucket_name.as_str().unicode_len() == 0
            || self.endpoint.as_str().unicode_len() == 0)
    }

    /// The configuration the form describes; a blank region reads `auto`.
    pub fn config(&self) -> (r: S3Config)
        ensures
            r.access_key_id@ == self.access_key_id@,
            r.secret_access_key@ == self.secret_access_key@,
            r.region@ == form_region(self.region@),
            r.endpoint@ == self.endpoint@,
            r.bucket_name@ == self.bucket_name@,
    {
        let trimmed = trim_ws(self.region.as_str());
        let region = if trimmed.as_str().unicode_len() == 0 {
            "auto".to_string()
        } else {
            self.region.clone()
        };
        S3Config {
            access_key_id: self.access_key_id.clone(),
            secret_access_key: self.secret_access_key.clone(),
            region,
            endpoint: self.endpoint.clone(),
            bucket_name: self.bucket_name.clone(),
        }
    }
}

/// The string settings of one remote's table in the stored configuration;
/// none where a setting is missing or not a string.
pub struct RemoteFields {
    pub access_key_id: Option<String>,
    pub secret_access_key: Option<String>,
    pub region: Option<String>,
    pub endpoint: Option<String>,
    pub bucket_name: Option<String>,
}

/// The message for a setting `key` of the remote `remote_name` that is
/// missing or not a string.
pub open spec fn missing_message(key: Seq<char>, remote_name: Seq<char>) -> Seq<char> {
    "Missing or invalid "@ + key + " for remote: "@ + remote_name
}

/// All five settings are present.
pub open spec fn is_complete(f: RemoteFields) -> bool {
    &&& f.access_key_id is Some
    &&& f.secret_access_key is Some
    &&& f.region is Some
    &&& f.endpoint is Some
    &&& f.bucket_name is Some
}

/// The first missing setting, in the order access key id, secret access key,
/// region, endpoint, bucket name.
pub open spec fn first_missing(f: RemoteFields) -> Seq<char> {
    if f.access_key_id is None {
        "access_key_id"@
    } else if f.secret_access_key is None {
        "secret_access_key"@
    } else if f.region is None {
        "region"@
    } else if f.endpoint is None {
        "endpoint"@
    } else {
        "bucket_name"@
    }
}

pub open spec fn holds_text(o: Option<String>, s: String) -> bool {
    o matches Some(v) && v@ == s@
}

/// `c` holds exactly the settings of `f`.
pub open spec fn built_from(c: S3Config, f: RemoteFields) -> bool {
    &&& holds_text(f.access_key_id, c.access_key_id)
    &&& holds_text(f.secret_access_key, c.secret_access_key)
    &&& holds_text(f.region, c.region)
    &&& holds_text(f.endpoint, c.endpoint)
    &&& holds_text(f.bucket_name, c.bucket_name)
}

fn get_table_str(remote_name: &str, value: &Option<String>, key: &str) -> (r: Result<String, AppError>)
    ensures
        match r {
            Ok(s) => value matches Some(v) && s@ == v@,
            Err(e) => value is None && e.status == 400 && e.message@ == missing_message(key@, remote_name@),
        },
{
    match value {
        Some(v) => Ok(v.clone()),
        None => {
            let mut message = "Missing or invalid ".to_string();
            message.append(key);
            message.append(" for remote: ");
            message.append(remote_name);
            Err(AppError::message(message))
        },
    }
}

/// The configuration of the remote `remote_name` from its settings; the first
/// missing setting is an error.
pub fn config_from_fields(remote_name: &str, fields: &RemoteFields) -> (r: Result<S3Config, AppError>)
    ensures
        r is Ok <==> is_complete(*fields),
        r matches Ok(c) ==> built_from(c, *fields),
        r matches Err(e) ==> e.status == 400 && e.message@ == missing_message(first_missing(*fields), remote_name@),
{
    let access_key_id = get_table_str(remote_name, &fields.access_key_id, "access_key_id")?;
    let secret_access_key = get_table_str(remote_name, &fields.secret_access_key, "secret_access_key")?;
    let region = get_table_str(remote_name, &fields.region, "region")?;
    let endpoint = get_table_str(remote_name, &fields.endpoint, "endpoint")?;
    let bucket_name = get_table_str(remote_name, &fields.bucket_name, "bucket_name")?;
    Ok(S3Config { access_key_id, secret_access_key, region, endpoint, bucket_name })
}

/// The entries of the stored configuration that are tables, in order.
pub open spec fn table_rows(entries: Seq<(String, Option<RemoteFields>)>) -> Seq<(String, RemoteFields)>
    decreases entries.len(),
{
    if entries.len() == 0 {
        seq![]
    } else {
        let rest = table_rows(entries.drop_last());
        match entries.last().1 {
            Some(f) => rest.push((entries.last().0, f)),
            None => rest,
        }
    }
}

/// The remotes of the stored configuration, given as (name, table) entries,
/// where entries that are not tables carry none and are skipped. The first
/// table that misses a setting makes it fail.
pub fn remotes_from_table(entries: &Vec<(String, Option<RemoteFields>)>) -> (r: Result<
    Vec<(String, S3Config)>,
    AppError,
>)
    ensures
        r is Ok <==> forall|i: int| 0 <= i < table_rows(entries@).len() ==> is_complete(#[trigger] table_rows(entries@)[i].1),
        r matches Ok(v) ==> {
            &&& v@.len() == table_rows(entries@).len()
            &&& forall|i: int|
                0 <= i < v@.len() ==> (#[trigger] v@[i]).0@ == table_rows(entries@)[i].0@ && built_from(
                    v@[i].1,
                    table_rows(entries@)[i].1,
                )
        },
        r matches Err(e) ==> exists|i: int|
            0 <= i < table_rows(entries@).len() && !is_complete(#[trigger] table_rows(entries@)[i].1) && (forall|j: int|
                0 <= j < i ==> is_complete(table_rows(entries@)[j].1)) && e.status == 400 && e.message@
                == missing_message(first_missing(table_rows(entries@)[i].1), table_rows(entries@)[i].0@),
{
    let mut out: Vec<(String, S3Config)> = Vec::new();
    let mut i: usize = 0;
    while i < entries.len()
        invariant
            i <= entries@.len(),
            out@.len() == table_rows(entries@.subrange(0, i as int)).len(),
            forall|k: int| 0 <= k < out@.len() ==> is_complete(#[trigger] table_rows(entries@.subrange(0, i as int))[k].1),
            forall|k: int|
                0 <= k < out@.len() ==> (#[trigger] out@[k]).0@ == table_rows(entries@.subrange(0, i as int))[k].0@
                    && built_from(out@[k].1, table_rows(entries@.subrange(0, i as int))[k].1),
        decreases entries@.len() - i,
    {
        let ghost rows0 = table_rows(entries@.subrange(0, i as int));
        assert(entries@.subrange(0, i + 1).drop_last() =~= entries@.subrange(0, i as int));
        let (name, fields) = &entries[i];
        match fields {
            Some(f) => {
                let ghost rows1 = table_rows(entries@.subrange(0, i + 1));
                assert(rows1 == rows0.push((*name, *f)));
                match config_from_fields(name.as_str(), f) {
                    Ok(c) => {
                        out.push((name.clone(), c));
                        assert(forall|k: int| 0 <= k < rows0.len() ==> rows1[k] == rows0[k]);
                        assert(rows1[rows0.len() as int] == (*name, *f));
                    },
                    Err(e) => {
                        proof {
                            let rows = table_rows(entries@);
                            lemma_table_rows_prefix(entries@, i as int + 1);
                            assert(rows[rows0.len() as int] == rows1[rows0.len() as int]);
                            assert forall|j: int| 0 <= j < rows0.len() implies is_complete(rows[j].1) by {
                                assert(rows[j] == rows1[j]);
                                assert(rows1[j] == rows0[j]);
                            }
                            let w = rows0.len() as int;
                            assert(rows1[w] == (*name, *f));
                            assert(rows[w] == (*name, *f));
                            assert(!is_complete(rows[w].1));
                        }
                        return Err(e);
                    },
                }
            },
            None => {
                assert(table_rows(entries@.subrange(0, i + 1)) == rows0);
            },
        }
        i = i + 1;
    }
    assert(entries@.subrange(0, entries@.len() as int) =~= entries@);
    Ok(out)
}

proof fn lemma_table_rows_prefix(entries: Seq<(String, Option<RemoteFields>)>, n: int)
    requires
        0 <= n <= entries.len(),
    ensures
        table_rows(entries.subrange(0, n)).len() <= table_rows(entries).len(),
        forall|k: int|
            0 <= k < table_rows(entries.subrange(0, n)).len() ==> table_rows(entries)[k] == table_rows(
                entries.subrange(0, n),
            )[k],
    decreases entries.len() - n,
{
    if n < entries.len() {
        lemma_table_rows_prefix(entries, n + 1);
        assert(entries.subrange(0, n + 1).drop_last() =~= entries.subrange(0, n));
    } else {
        assert(entries.subrange(0, n) =~= entries);
    }
}

} // verus!
