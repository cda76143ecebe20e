//! What the command line asks of the backend.

use vstd::prelude::*;
use vstd::string::*;
use vstd::utf8::{encode_utf8, is_ascii_chars};

use crate::config::{parsed_config, BigtableStorageConfig, ConfigView};
use crate::error::{internal, ErrView, StorageError};
use crate::text::{
    cat2, cat3, chars_of, decimal, lemma_first_index_is, numeral_round_trip, parse_u64,
    parse_unsigned, split_at_first, split_once, text, usize_text,
};

verus! {

/// The version of the catalog.
pub const CATALOG_VERSION: &'static str = "0.1.0";

/// The longest name of a table.
pub const MAX_IDENTIFIER: usize = 50;

/// Where a connection goes.
#[derive(Debug, PartialEq, Eq)]
pub struct ConnectionParts {
    pub host: String,
    pub port: u16,
    pub user: String,
    pub password: String,
    pub database: String,
}

/// The host and the port of an address; without a port it is 8086, and a port
/// that is no number is 8086 too.
pub open spec fn host_and_port(address: Seq<char>) -> (Seq<char>, int) {
    match split_once(address, ':') {
        Some((h, p)) => (
            h,
            match parse_unsigned(p, u16::MAX as nat) {
                Some(n) => n as int,
                None => 8086,
            },
        ),
        None => (address, 8086),
    }
}

/// Where the connection of settings goes: to the emulator, or to Google Cloud.
pub open spec fn endpoint(c: ConfigView) -> (Seq<char>, int) {
    match c.emulator {
        Some(a) => host_and_port(a),
        None => ("bigtable.googleapis.com"@, 443),
    }
}

/// What is wrong with a name, where something is: it is empty, too long, begins
/// with the wrong character, or holds one.
pub open spec fn identifier_error(name: Seq<char>, label: Seq<char>) -> Option<Seq<char>> {
    let n = encode_utf8(name).len();
    if name.len() == 0 {
        Some(label + " must not be empty"@)
    } else if n > MAX_IDENTIFIER {
        Some(label + " must be at most 50 characters, got "@ + decimal(n))
    } else if !is_alphanumeric(name[0]) && name[0] != '_' {
        Some(label + " must start with alphanumeric or underscore"@)
    } else if exists|i: int| 0 <= i < name.len() && !name_char(#[trigger] name[i]) {
        Some(label + " contains invalid characters (only alphanumeric, _, -, . allowed)"@)
    } else {
        None
    }
}

/// An ASCII letter or digit.
pub open spec fn is_alphanumeric(c: char) -> bool {
    ('a' <= c && c <= 'z') || ('A' <= c && c <= 'Z') || ('0' <= c && c <= '9')
}

/// A character that may stand in a name.
pub open spec fn name_char(c: char) -> bool {
    is_alphanumeric(c) || c == '_' || c == '-' || c == '.'
}

fn alphanumeric(c: char) -> (r: bool)
    ensures
        r == is_alphanumeric(c),
{
    ('a' <= c && c <= 'z') || ('A' <= c && c <= 'Z') || ('0' <= c && c <= '9')
}

/// A text in lower case.
pub uninterp spec fn lower_case(s: Seq<char>) -> Seq<char>;

pub open spec fn ascii_lower(c: char) -> char {
    if 'A' <= c && c <= 'Z' {
        (c as u32 + 32) as char
    } else {
        c
    }
}

/// Calls `str::to_lowercase`. Of ASCII the capital letters become small; what
/// becomes of other text is named, not described.
#[verifier::external_body]
pub(crate) fn to_lower(s: &str) -> (r: String)
    ensures
        r@ == lower_case(s@),
        is_ascii_chars(s@) ==> r@ == s@.map_values(|c: char| ascii_lower(c)),
{
    s.to_lowercase()
}

/// Whether a text stands in another.
pub open spec fn holds_text(s: Seq<char>, p: Seq<char>) -> bool {
    exists|i: int| 0 <= i <= s.len() - p.len() && #[trigger] s.subrange(i, i + p.len()) == p
}

/// Looks for a text in another.
pub fn contains_text(s: &str, p: &str) -> (r: bool)
    ensures
        r == holds_text(s@, p@),
{
    let a = chars_of(s);
    let b = chars_of(p);
    if b.len() > a.len() {
        return false;
    }
    let mut i: usize = 0;
    while i <= a.len() - b.len()
        invariant
            b.len() <= a.len(),
            i <= a.len() - b.len() + 1,
            a@ == s@,
            b@ == p@,
            forall|k: int|
                0 <= k < i && k <= s@.len() - p@.len() ==> #[trigger] s@.subrange(
                    k,
                    k + p@.len(),
                ) != p@,
        decreases a.len() - b.len() + 1 - i,
    {
        let mut j: usize = 0;
        while j < b.len() && a[i + j] == b[j]
            invariant
                b.len() <= a.len(),
                i <= a.len() - b.len(),
                j <= b.len(),
                a@ == s@,
                b@ == p@,
                forall|k: int| 0 <= k < j ==> a@[i + k] == b@[k],
            decreases b.len() - j,
        {
            j = j + 1;
        }
        let ghost part = s@.subrange(i as int, i + p@.len());
        if j == b.len() {
            assert(part =~= p@);
            assert(s@.subrange(i as int, i + p@.len()) == p@);
            return true;
        }
        assert(part[j as int] != p@[j as int]);
        i = i + 1;
    }
    false
}

/// The operations of the backend.
#[derive(Clone, Copy, Debug, PartialEq, Eq)]
pub struct BigtableOperationsEngine;

impl BigtableOperationsEngine {
    /// Takes a connection string apart.
    pub fn parse_connection_string(&self, s: &str) -> (r: Result<ConnectionParts, StorageError>)
        ensures
            match r {
                Ok(p) => parsed_config(s@) matches Ok(c) && p.host@ == endpoint(c).0 && p.port
                    == endpoint(c).1 && p.user@.len() == 0 && p.password@.len() == 0 && p.database@
                    == c.instance,
                Err(e) => parsed_config(s@) matches Err(m) && e@ == ErrView::Internal(m),
            },
    {
        let c = match BigtableStorageConfig::from_connection_string(s) {
            Ok(c) => c,
            Err(m) => return Err(internal(m.as_str())),
        };
        let (host, port): (String, u16) = match &c.emulator_host {
            Some(a) => match split_at_first(a.as_str(), ':') {
                Some((h, p)) => {
                    let port = port_of(p.as_str());
                    (h, port)
                },
                None => (text(a.as_str()), 8086),
            },
            None => (text("bigtable.googleapis.com"), 443),
        };
        Ok(
            ConnectionParts {
                host,
                port,
                user: String::new(),
                password: String::new(),
                database: c.instance_id,
            },
        )
    }

    /// Hides what is secret in a connection string: nothing is.
    pub fn redact_connection_string(&self, s: &str) -> (r: String)
        ensures
            r@ == s@,
    {
        text(s)
    }

    /// Looks at the name of a table.
    pub fn validate_identifier(&self, name: &str, label: &str) -> (r: Result<(), StorageError>)
        ensures
            match r {
                Ok(_) => identifier_error(name@, label@) is None,
                Err(e) => identifier_error(name@, label@) matches Some(m) && e@
                    == ErrView::Internal(m),
            },
    {
        let c = chars_of(name);
        if c.len() == 0 {
            return Err(internal(cat2(label, " must not be empty").as_str()));
        }
        let n: usize = name.as_bytes().len();
        if n > MAX_IDENTIFIER {
            return Err(
                internal(
                    cat3(
                        label,
                        " must be at most 50 characters, got ",
                        usize_text(n).as_str(),
                    ).as_str(),
                ),
            );
        }
        if !alphanumeric(c[0]) && c[0] != '_' {
            return Err(
                internal(cat2(label, " must start with alphanumeric or underscore").as_str()),
            );
        }
        let mut i: usize = 0;
        while i < c.len()
            invariant
                i <= c.len(),
                c@ == name@,
                c@.len() > 0,
                encode_utf8(name@).len() <= MAX_IDENTIFIER,
                is_alphanumeric(name@[0]) || name@[0] == '_',
                forall|k: int| 0 <= k < i ==> name_char(#[trigger] name@[k]),
            decreases c.len() - i,
        {
            let x = c[i];
            if !(alphanumeric(x) || x == '_' || x == '-' || x == '.') {
                assert(!name_char(name@[i as int]));
                return Err(
                    internal(
                        cat2(
                            label,
                            " contains invalid characters (only alphanumeric, _, -, . allowed)",
                        ).as_str(),
                    ),
                );
            }
            i = i + 1;
        }
        Ok(())
    }

    pub fn catalog_version(&self) -> (r: String)
        ensures
            r@ == CATALOG_VERSION@,
    {
        text(CATALOG_VERSION)
    }

    /// Whether a setting is not to be shown.
    pub fn is_sensitive_key(&self, key: &str) -> (r: bool)
        ensures
            r == is_sensitive(lower_case(key@)),
    {
        let lower = to_lower(key);
        sensitive(lower.as_str())
    }
}

/// Whether the name of a setting, in lower case, stands for one that is not to
/// be shown.
pub open spec fn is_sensitive(lower: Seq<char>) -> bool {
    holds_text(lower, "credential"@) || holds_text(lower, "key"@)
}

/// Whether the name of a setting, in lower case, stands for one that is not to
/// be shown.
pub fn sensitive(lower: &str) -> (r: bool)
    ensures
        r == is_sensitive(lower@),
{
    contains_text(lower, "credential") || contains_text(lower, "key")
}

fn port_of(p: &str) -> (r: u16)
    ensures
        r == match parse_unsigned(p@, u16::MAX as nat) {
            Some(n) => n as int,
            None => 8086,
        },
{
    proof {
        let d = if p@.len() > 0 && p@[0] == '+' {
            p@.skip(1)
        } else {
            p@
        };
        if crate::text::all_digits(d) {
            crate::text::lemma_dec_value_nonneg(d);
        }
    }
    match parse_u64(p) {
        Some(n) => if n <= u16::MAX as u64 {
            n as u16
        } else {
            8086
        },
        None => 8086,
    }
}

/// A name is accepted exactly if it has between one and fifty bytes, begins with a
/// letter, a digit or an underscore, and has no characters but these, hyphens and
/// points.
pub proof fn identifiers_are_plain_names(name: Seq<char>, label: Seq<char>)
    ensures
        identifier_error(name, label) is None <==> {
            &&& 0 < name.len()
            &&& encode_utf8(name).len() <= 50
            &&& name[0] != '-' && name[0] != '.'
            &&& forall|i: int|
                0 <= i < name.len() ==> {
                    let c = #[trigger] name[i];
                    ||| 'a' <= c && c <= 'z'
                    ||| 'A' <= c && c <= 'Z'
                    ||| '0' <= c && c <= '9'
                    ||| c == '_'
                    ||| c == '-'
                    ||| c == '.'
                }
        },
        identifier_error(name, label) matches Some(m) ==> label.is_prefix_of(m),
{
    if identifier_error(name, label) is None {
        assert forall|i: int| 0 <= i < name.len() implies name_char(#[trigger] name[i]) by {}
    }
    if name.len() > 0 {
        assert(name[0] == name[0]);
    }
    if let Some(m) = identifier_error(name, label) {
        assert(m.subrange(0, label.len() as int) =~= label);
    }
}

/// The address of an emulator gives its host and its port; without a port it is the
/// usual one, and without an emulator it is the service itself.
pub proof fn addresses_give_host_and_port(c: ConfigView, host: Seq<char>, port: nat)
    requires
        !host.contains(':'),
        port <= 65535,
    ensures
        c.emulator == Some(host + seq![':'] + decimal(port)) ==> endpoint(c) == (host, port as int),
        c.emulator == Some(host) ==> endpoint(c) == (host, 8086int),
        c.emulator is None ==> endpoint(c) == ("bigtable.googleapis.com"@, 443int),
{
    let s = host + seq![':'] + decimal(port);
    assert forall|j: int| 0 <= j < host.len() implies s[j] != ':' && host[j] != ':' by {
        assert(s[j] == host[j]);
        assert(host.contains(host[j]));
    }
    assert(s[host.len() as int] == ':');
    lemma_first_index_is(s, ':', host.len() as int);
    lemma_first_index_is(host, ':', host.len() as int);
    assert(s.take(host.len() as int) =~= host);
    assert(s.skip(host.len() as int + 1) =~= decimal(port));
    numeral_round_trip(port as int, 0, 65535);
}

/// A setting is held back wherever its name speaks of a key or of a credential.
pub proof fn settings_with_secrets_are_held_back(before: Seq<char>, after: Seq<char>, s: Seq<char>)
    ensures
        is_sensitive(before + "key"@ + after),
        is_sensitive(before + "credential"@ + after),
        is_sensitive(s) <==> holds_text(s, "key"@) || holds_text(s, "credential"@),
{
    let k = before + "key"@ + after;
    assert(k.subrange(before.len() as int, (before.len() + "key"@.len()) as int) =~= "key"@);
    assert(holds_text(k, "key"@));
    let c = before + "credential"@ + after;
    assert(c.subrange(before.len() as int, (before.len() + "credential"@.len()) as int)
        =~= "credential"@);
    assert(holds_text(c, "credential"@));
}

} // verus!
