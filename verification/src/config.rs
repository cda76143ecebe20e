//! The settings of a deployment, and the connection string that stands for
//! them.

use vstd::prelude::*;
use vstd::string::*;

use crate::text::{
    cat2, cat3, cat4, decimal, first_index, lemma_first_index, lemma_first_index_is,
    numeral_round_trip, opt_text, opt_view, parse_u64, parse_unsigned, split_all, split_at_first,
    split_once, split_text, str_eq, strip_prefix, text, u64_text, views, without_prefix,
};

verus! {

pub fn default_pool_size() -> (r: u32)
    ensures
        r == 20,
{
    20
}

pub fn default_sweeper_cadence() -> (r: u64)
    ensures
        r == 30,
{
    30
}

pub fn default_intent_timeout() -> (r: u64)
    ensures
        r == 60,
{
    60
}

pub fn default_ttl_scan_cadence() -> (r: u64)
    ensures
        r == 60,
{
    60
}

pub fn default_gsi_reconcile_cadence() -> (r: u64)
    ensures
        r == 300,
{
    300
}

/// The settings of a deployment.
///
/// With `emulator_host` the backend talks to an emulator at that address, and
/// else to Google Cloud.
#[derive(Debug, PartialEq, Eq)]
pub struct BigtableStorageConfig {
    pub project_id: String,
    pub instance_id: String,
    /// The instance of the data tables, where it is not that of the catalog.
    pub data_instance_id: Option<String>,
    /// The file with the key of a service account.
    pub credentials_path: Option<String>,
    pub emulator_host: Option<String>,
    pub pool_size: u32,
    /// As `pool_size`, where it is not given.
    pub catalog_pool_size: Option<u32>,
    /// How often stale transactions are looked for.
    pub sweeper_cadence_secs: u64,
    /// The age from which a transaction is stale.
    pub intent_timeout_secs: u64,
    /// How often expired items are looked for.
    pub ttl_scan_cadence_secs: u64,
    /// How often shadow tables are repaired.
    pub gsi_reconcile_cadence_secs: u64,
    /// Every request is let through. Not for production.
    pub dev_mode: bool,
}

/// What the settings are.
pub struct ConfigView {
    pub project: Seq<char>,
    pub instance: Seq<char>,
    pub data_instance: Option<Seq<char>>,
    pub credentials: Option<Seq<char>>,
    pub emulator: Option<Seq<char>>,
    pub pool_size: u32,
    pub catalog_pool_size: Option<u32>,
    pub sweeper: u64,
    pub intent_timeout: u64,
    pub ttl_scan: u64,
    pub gsi_reconcile: u64,
    pub dev_mode: bool,
}

impl BigtableStorageConfig {
    pub open spec fn view(&self) -> ConfigView {
        ConfigView {
            project: self.project_id@,
            instance: self.instance_id@,
            data_instance: opt_view(self.data_instance_id),
            credentials: opt_view(self.credentials_path),
            emulator: opt_view(self.emulator_host),
            pool_size: self.pool_size,
            catalog_pool_size: self.catalog_pool_size,
            sweeper: self.sweeper_cadence_secs,
            intent_timeout: self.intent_timeout_secs,
            ttl_scan: self.ttl_scan_cadence_secs,
            gsi_reconcile: self.gsi_reconcile_cadence_secs,
            dev_mode: self.dev_mode,
        }
    }
}

impl Default for BigtableStorageConfig {
    fn default() -> (r: BigtableStorageConfig)
        ensures
            r@ == (ConfigView {
                project: "extenddb-dev"@,
                instance: "extenddb-dev"@,
                data_instance: None,
                credentials: None,
                emulator: Some("localhost:8086"@),
                pool_size: 20,
                catalog_pool_size: None,
                sweeper: 30,
                intent_timeout: 60,
                ttl_scan: 60,
                gsi_reconcile: 300,
                dev_mode: false,
            }),
    {
        BigtableStorageConfig {
            project_id: text("extenddb-dev"),
            instance_id: text("extenddb-dev"),
            data_instance_id: None,
            credentials_path: None,
            emulator_host: Some(text("localhost:8086")),
            pool_size: default_pool_size(),
            catalog_pool_size: None,
            sweeper_cadence_secs: default_sweeper_cadence(),
            intent_timeout_secs: default_intent_timeout(),
            ttl_scan_cadence_secs: default_ttl_scan_cadence(),
            gsi_reconcile_cadence_secs: default_gsi_reconcile_cadence(),
            dev_mode: false,
        }
    }
}

impl Clone for BigtableStorageConfig {
    fn clone(&self) -> (r: BigtableStorageConfig)
        ensures
            r@ == self@,
    {
        BigtableStorageConfig {
            project_id: text(self.project_id.as_str()),
            instance_id: text(self.instance_id.as_str()),
            data_instance_id: opt_text(&self.data_instance_id),
            credentials_path: opt_text(&self.credentials_path),
            emulator_host: opt_text(&self.emulator_host),
            pool_size: self.pool_size,
            catalog_pool_size: self.catalog_pool_size,
            sweeper_cadence_secs: self.sweeper_cadence_secs,
            intent_timeout_secs: self.intent_timeout_secs,
            ttl_scan_cadence_secs: self.ttl_scan_cadence_secs,
            gsi_reconcile_cadence_secs: self.gsi_reconcile_cadence_secs,
            dev_mode: self.dev_mode,
        }
    }
}

// ---------------------------------------------------------------------------
// Writing
// ---------------------------------------------------------------------------

/// A setting in a connection string.
pub open spec fn param(name: Seq<char>, value: Seq<char>) -> Seq<char> {
    name + seq!['='] + value
}

pub open spec fn opt_param(name: Seq<char>, value: Option<Seq<char>>) -> Seq<Seq<char>> {
    match value {
        Some(v) => seq![param(name, v)],
        None => Seq::empty(),
    }
}

/// A number, where it is not the default.
pub open spec fn num_param(name: Seq<char>, value: u64, default: u64) -> Seq<Seq<char>> {
    if value == default {
        Seq::empty()
    } else {
        seq![param(name, decimal(value as nat))]
    }
}

/// The settings in a connection string.
pub open spec fn params(c: ConfigView) -> Seq<Seq<char>> {
    opt_param("emulator"@, c.emulator) + (if c.dev_mode {
        seq![param("dev_mode"@, "true"@)]
    } else {
        Seq::empty()
    }) + opt_param("data_instance_id"@, c.data_instance) + opt_param(
        "credentials_path"@,
        c.credentials,
    ) + num_param("ttl_scan"@, c.ttl_scan, 60) + num_param("sweeper"@, c.sweeper, 30) + num_param(
        "intent_timeout"@,
        c.intent_timeout,
        60,
    ) + num_param("gsi_reconcile"@, c.gsi_reconcile, 300)
}

/// Texts with a character between them.
pub open spec fn joined(l: Seq<Seq<char>>, c: char) -> Seq<char>
    decreases l.len(),
{
    if l.len() == 0 {
        Seq::empty()
    } else if l.len() == 1 {
        l[0]
    } else {
        l[0] + seq![c] + joined(l.skip(1), c)
    }
}

/// The connection string of settings.
pub open spec fn connection_text(c: ConfigView) -> Seq<char> {
    let path = "bigtable://"@ + c.project + "/"@ + c.instance;
    if params(c).len() == 0 {
        path
    } else {
        path + "?"@ + joined(params(c), '&')
    }
}

fn push_param(l: &mut Vec<String>, name: &str, value: &str)
    ensures
        views(final(l)@) == views(old(l)@).push(param(name@, value@)),
{
    let ghost before = views(l@);
    let p = cat3(name, "=", value);
    proof {
        reveal_strlit("=");
        assert("="@ =~= seq!['=']);
    }
    let ghost added = p@;
    l.push(p);
    assert(views(l@) =~= before.push(added));
}

fn push_opt(l: &mut Vec<String>, name: &str, value: &Option<String>)
    ensures
        views(final(l)@) == views(old(l)@) + opt_param(name@, opt_view(*value)),
{
    let ghost before = views(l@);
    match value {
        Some(v) => {
            push_param(l, name, v.as_str());
            assert(views(l@) =~= before + opt_param(name@, Some(v@)));
        },
        None => {
            assert(before =~= before + opt_param(name@, None));
        },
    }
}

fn push_num(l: &mut Vec<String>, name: &str, value: u64, default: u64)
    ensures
        views(final(l)@) == views(old(l)@) + num_param(name@, value, default),
{
    let ghost before = views(l@);
    if value != default {
        push_param(l, name, u64_text(value).as_str());
    }
    assert(views(l@) =~= before + num_param(name@, value, default));
}

fn join_texts(l: &[String], c: &str, Ghost(sep): Ghost<char>) -> (r: String)
    requires
        c@ == seq![sep],
    ensures
        r@ == joined(views(l@), sep),
{
    let ghost all = views(l@);
    if l.len() == 0 {
        let r = String::new();
        assert(r@ =~= joined(all, sep));
        return r;
    }
    let mut i: usize = l.len() - 1;
    let mut out = text(l[i].as_str());
    assert(joined(all.skip(i as int), sep) == all[i as int]);
    while i > 0
        invariant
            i < l.len(),
            all == views(l@),
            c@ == seq![sep],
            out@ == joined(all.skip(i as int), sep),
        decreases i,
    {
        i = i - 1;
        out = cat3(l[i].as_str(), c, out.as_str());
        proof {
            assert(all.skip(i as int).skip(1) =~= all.skip(i + 1));
            assert(all.skip(i as int)[0] == l@[i as int]@);
        }
    }
    assert(all.skip(0) =~= all);
    out
}

// ---------------------------------------------------------------------------
// Reading
// ---------------------------------------------------------------------------

/// A number in a connection string; what is none leaves the setting as it was.
pub open spec fn read_number(v: Seq<char>, now: u64) -> u64 {
    match parse_unsigned(v, u64::MAX as nat) {
        Some(n) => n as u64,
        None => now,
    }
}

/// The settings after one more from a connection string. Names that are not
/// known are passed over.
pub open spec fn with_param(c: ConfigView, pair: Seq<char>) -> ConfigView {
    match split_once(pair, '=') {
        None => c,
        Some((name, v)) => if name == "emulator"@ {
            ConfigView { emulator: Some(v), ..c }
        } else if name == "dev_mode"@ {
            ConfigView { dev_mode: v == "true"@ || v == "1"@, ..c }
        } else if name == "data_instance_id"@ {
            ConfigView { data_instance: Some(v), ..c }
        } else if name == "credentials_path"@ {
            ConfigView { credentials: Some(v), ..c }
        } else if name == "ttl_scan"@ {
            ConfigView { ttl_scan: read_number(v, c.ttl_scan), ..c }
        } else if name == "sweeper"@ {
            ConfigView { sweeper: read_number(v, c.sweeper), ..c }
        } else if name == "intent_timeout"@ {
            ConfigView { intent_timeout: read_number(v, c.intent_timeout), ..c }
        } else if name == "gsi_reconcile"@ {
            ConfigView { gsi_reconcile: read_number(v, c.gsi_reconcile), ..c }
        } else {
            c
        },
    }
}

/// The settings after all of a connection string.
pub open spec fn with_params(c: ConfigView, l: Seq<Seq<char>>) -> ConfigView
    decreases l.len(),
{
    if l.len() == 0 {
        c
    } else {
        with_param(with_params(c, l.drop_last()), l.last())
    }
}

/// The settings of a project and an instance, and all else by default.
pub open spec fn plain_config(project: Seq<char>, instance: Seq<char>) -> ConfigView {
    ConfigView {
        project,
        instance,
        data_instance: None,
        credentials: None,
        emulator: None,
        pool_size: 20,
        catalog_pool_size: None,
        sweeper: 30,
        intent_timeout: 60,
        ttl_scan: 60,
        gsi_reconcile: 300,
        dev_mode: false,
    }
}

/// The path of a connection string, and what follows the question mark.
pub open spec fn path_and_query(s: Seq<char>) -> (Seq<char>, Option<Seq<char>>) {
    match split_once(s, '?') {
        Some((p, q)) => (p, Some(q)),
        None => (s, None),
    }
}

/// The settings that a connection string stands for.
pub open spec fn parsed_config(s: Seq<char>) -> Result<ConfigView, Seq<char>> {
    match strip_prefix(s, "bigtable://"@) {
        None => Err("not a bigtable URL: "@ + s),
        Some(rest) => {
            let (path, query) = path_and_query(rest);
            match split_once(path, '/') {
                None => Err("missing instance in URL: "@ + s),
                Some((project, instance)) => Ok(
                    match query {
                        None => plain_config(project, instance),
                        Some(q) => with_params(plain_config(project, instance), split_all(q, '&')),
                    },
                ),
            }
        },
    }
}

fn number_or(v: &str, now: u64) -> (r: u64)
    ensures
        r == read_number(v@, now),
{
    match parse_u64(v) {
        Some(n) => n,
        None => now,
    }
}

fn set_param(c: &mut BigtableStorageConfig, pair: &str)
    ensures
        final(c)@ == with_param(old(c)@, pair@),
{
    let (name, v) = match split_at_first(pair, '=') {
        Some(p) => p,
        None => return,
    };
    let n = name.as_str();
    if str_eq(n, "emulator") {
        c.emulator_host = Some(v);
    } else if str_eq(n, "dev_mode") {
        c.dev_mode = str_eq(v.as_str(), "true") || str_eq(v.as_str(), "1");
    } else if str_eq(n, "data_instance_id") {
        c.data_instance_id = Some(v);
    } else if str_eq(n, "credentials_path") {
        c.credentials_path = Some(v);
    } else if str_eq(n, "ttl_scan") {
        c.ttl_scan_cadence_secs = number_or(v.as_str(), c.ttl_scan_cadence_secs);
    } else if str_eq(n, "sweeper") {
        c.sweeper_cadence_secs = number_or(v.as_str(), c.sweeper_cadence_secs);
    } else if str_eq(n, "intent_timeout") {
        c.intent_timeout_secs = number_or(v.as_str(), c.intent_timeout_secs);
    } else if str_eq(n, "gsi_reconcile") {
        c.gsi_reconcile_cadence_secs = number_or(v.as_str(), c.gsi_reconcile_cadence_secs);
    }
}

impl BigtableStorageConfig {
    /// The connection string `bigtable://<project>/<instance>`, with a question
    /// mark and the settings behind it that are not the default.
    pub fn connection_string(&self) -> (r: String)
        ensures
            r@ == connection_text(self@),
    {
        let mut l: Vec<String> = Vec::new();
        let ghost c = self@;
        assert(views(l@) =~= Seq::<Seq<char>>::empty());
        push_opt(&mut l, "emulator", &self.emulator_host);
        if self.dev_mode {
            push_param(&mut l, "dev_mode", "true");
        }
        let ghost p2 = opt_param("emulator"@, c.emulator) + if c.dev_mode {
            seq![param("dev_mode"@, "true"@)]
        } else {
            Seq::empty()
        };
        assert(views(l@) =~= p2);
        push_opt(&mut l, "data_instance_id", &self.data_instance_id);
        push_opt(&mut l, "credentials_path", &self.credentials_path);
        push_num(&mut l, "ttl_scan", self.ttl_scan_cadence_secs, default_ttl_scan_cadence());
        push_num(&mut l, "sweeper", self.sweeper_cadence_secs, default_sweeper_cadence());
        push_num(&mut l, "intent_timeout", self.intent_timeout_secs, default_intent_timeout());
        push_num(
            &mut l,
            "gsi_reconcile",
            self.gsi_reconcile_cadence_secs,
            default_gsi_reconcile_cadence(),
        );
        assert(views(l@) == params(c));
        assert(views(l@).len() == l@.len());
        let path = cat4("bigtable://", self.project_id.as_str(), "/", self.instance_id.as_str());
        if l.len() == 0 {
            path
        } else {
            proof {
                reveal_strlit("&");
                assert("&"@ =~= seq!['&']);
            }
            let query = join_texts(l.as_slice(), "&", Ghost('&'));
            cat3(path.as_str(), "?", query.as_str())
        }
    }

    /// Reads a connection string. The sizes of the pools are not in it.
    pub fn from_connection_string(s: &str) -> (r: Result<BigtableStorageConfig, String>)
        ensures
            match r {
                Ok(c) => parsed_config(s@) == Ok::<ConfigView, Seq<char>>(c@),
                Err(e) => parsed_config(s@) == Err::<ConfigView, Seq<char>>(e@),
            },
    {
        let rest = match without_prefix(s, "bigtable://") {
            Some(r) => r,
            None => return Err(cat2("not a bigtable URL: ", s)),
        };
        let (path, query) = match split_at_first(rest.as_str(), '?') {
            Some((p, q)) => (p, Some(q)),
            None => (rest, None),
        };
        let (project_id, instance_id) = match split_at_first(path.as_str(), '/') {
            Some(p) => p,
            None => return Err(cat2("missing instance in URL: ", s)),
        };
        let mut c = BigtableStorageConfig {
            project_id,
            instance_id,
            data_instance_id: None,
            credentials_path: None,
            emulator_host: None,
            pool_size: default_pool_size(),
            catalog_pool_size: None,
            sweeper_cadence_secs: default_sweeper_cadence(),
            intent_timeout_secs: default_intent_timeout(),
            ttl_scan_cadence_secs: default_ttl_scan_cadence(),
            gsi_reconcile_cadence_secs: default_gsi_reconcile_cadence(),
            dev_mode: false,
        };
        let ghost start = c@;
        let q = match query {
            Some(q) => q,
            None => return Ok(c),
        };
        let pairs = split_text(q.as_str(), '&');
        let ghost all = views(pairs@);
        let mut i: usize = 0;
        while i < pairs.len()
            invariant
                i <= pairs.len(),
                all == views(pairs@),
                c@ == with_params(start, all.take(i as int)),
            decreases pairs.len() - i,
        {
            proof {
                assert(all.take(i + 1).drop_last() =~= all.take(i as int));
                assert(all.take(i + 1).last() == pairs@[i as int]@);
            }
            set_param(&mut c, pairs[i].as_str());
            i = i + 1;
        }
        assert(all.take(i as int) =~= all);
        Ok(c)
    }

    /// The settings of the instance of the data tables, where it is not that of
    /// the catalog.
    pub fn data_config(&self) -> (r: Option<BigtableStorageConfig>)
        ensures
            match r {
                Some(c) => self@.data_instance matches Some(d) && c@ == (ConfigView {
                    instance: d,
                    ..self@
                }),
                None => self@.data_instance is None,
            },
    {
        match &self.data_instance_id {
            Some(d) => {
                let mut c = self.clone();
                c.instance_id = text(d.as_str());
                Some(c)
            },
            None => None,
        }
    }

    /// The connection string, for display.
    pub fn connection_config(&self) -> (r: String)
        ensures
            r@ == connection_text(self@),
    {
        self.connection_string()
    }

    pub fn max_connections(&self) -> (r: u32)
        ensures
            r == self.pool_size,
    {
        self.pool_size
    }

    pub fn max_catalog_connections(&self) -> (r: u32)
        ensures
            r == match self.catalog_pool_size {
                Some(n) => n,
                None => self.pool_size,
            },
    {
        match self.catalog_pool_size {
            Some(n) => n,
            None => self.pool_size,
        }
    }
}

// ---------------------------------------------------------------------------
// Round trip
// ---------------------------------------------------------------------------

proof fn lemma_split_once_at(a: Seq<char>, c: char, b: Seq<char>)
    requires
        !a.contains(c),
    ensures
        split_once(a + seq![c] + b, c) == Some((a, b)),
{
    let s = a + seq![c] + b;
    assert forall|j: int| 0 <= j < a.len() implies s[j] != c by {
        assert(s[j] == a[j]);
        assert(a.contains(a[j]));
    }
    lemma_first_index_is(s, c, a.len() as int);
    assert(s.take(a.len() as int) =~= a);
    assert(s.skip((a.len() + 1) as int) =~= b);
}

proof fn lemma_no_split(a: Seq<char>, c: char)
    requires
        !a.contains(c),
    ensures
        first_index(a, c) == a.len(),
        split_once(a, c) is None,
        split_all(a, c) == seq![a],
{
    assert forall|j: int| 0 <= j < a.len() implies a[j] != c by {
        assert(a.contains(a[j]));
    }
    lemma_first_index_is(a, c, a.len() as int);
}

/// Texts that do not hold the character between them come apart as they were
/// joined.
pub proof fn split_undoes_join(l: Seq<Seq<char>>, c: char)
    requires
        l.len() > 0,
        forall|i: int| 0 <= i < l.len() ==> !(#[trigger] l[i]).contains(c),
    ensures
        split_all(joined(l, c), c) == l,
    decreases l.len(),
{
    assert(!l[0].contains(c));
    if l.len() == 1 {
        lemma_no_split(l[0], c);
        assert(l =~= seq![l[0]]);
    } else {
        let rest = l.skip(1);
        assert forall|i: int| 0 <= i < rest.len() implies !(#[trigger] rest[i]).contains(c) by {
            assert(rest[i] == l[i + 1]);
        }
        split_undoes_join(rest, c);
        let s = joined(l, c);
        lemma_split_once_at(l[0], c, joined(rest, c));
        lemma_first_index(s, c);
        assert(split_all(s, c) == seq![l[0]] + split_all(joined(rest, c), c));
        assert(seq![l[0]] + rest =~= l);
    }
}

proof fn lemma_with_params_concat(c: ConfigView, a: Seq<Seq<char>>, b: Seq<Seq<char>>)
    ensures
        with_params(c, a + b) == with_params(with_params(c, a), b),
    decreases b.len(),
{
    if b.len() > 0 {
        assert((a + b).drop_last() =~= a + b.drop_last());
        lemma_with_params_concat(c, a, b.drop_last());
    } else {
        assert(a + b =~= a);
    }
}

proof fn lemma_one_param(c: ConfigView, name: Seq<char>, value: Seq<char>)
    requires
        !name.contains('='),
    ensures
        split_once(param(name, value), '=') == Some((name, value)),
        with_params(c, seq![param(name, value)]) == with_param(c, param(name, value)),
{
    lemma_split_once_at(name, '=', value);
    let l = seq![param(name, value)];
    assert(l.drop_last() =~= Seq::<Seq<char>>::empty());
    assert(with_params(c, l.drop_last()) == c);
}

/// Whether a text is a name without the characters that connection strings are
/// made of.
pub open spec fn plain_name(s: Seq<char>) -> bool {
    !s.contains('=') && !s.contains('&')
}

proof fn lemma_param_names()
    ensures
        plain_name("emulator"@),
        plain_name("dev_mode"@),
        plain_name("data_instance_id"@),
        plain_name("credentials_path"@),
        plain_name("ttl_scan"@),
        plain_name("sweeper"@),
        plain_name("intent_timeout"@),
        plain_name("gsi_reconcile"@),
        !"true"@.contains('&'),
        "dev_mode"@ != "emulator"@,
        "data_instance_id"@ != "emulator"@,
        "data_instance_id"@ != "dev_mode"@,
        "credentials_path"@ != "emulator"@,
        "credentials_path"@ != "dev_mode"@,
        "credentials_path"@ != "data_instance_id"@,
        "ttl_scan"@ != "emulator"@,
        "ttl_scan"@ != "dev_mode"@,
        "ttl_scan"@ != "data_instance_id"@,
        "ttl_scan"@ != "credentials_path"@,
        "sweeper"@ != "emulator"@,
        "sweeper"@ != "dev_mode"@,
        "sweeper"@ != "data_instance_id"@,
        "sweeper"@ != "credentials_path"@,
        "sweeper"@ != "ttl_scan"@,
        "intent_timeout"@ != "emulator"@,
        "intent_timeout"@ != "dev_mode"@,
        "intent_timeout"@ != "data_instance_id"@,
        "intent_timeout"@ != "credentials_path"@,
        "intent_timeout"@ != "ttl_scan"@,
        "intent_timeout"@ != "sweeper"@,
        "gsi_reconcile"@ != "emulator"@,
        "gsi_reconcile"@ != "dev_mode"@,
        "gsi_reconcile"@ != "data_instance_id"@,
        "gsi_reconcile"@ != "credentials_path"@,
        "gsi_reconcile"@ != "ttl_scan"@,
        "gsi_reconcile"@ != "sweeper"@,
        "gsi_reconcile"@ != "intent_timeout"@,
{
    reveal_strlit("emulator");
    reveal_strlit("dev_mode");
    reveal_strlit("data_instance_id");
    reveal_strlit("credentials_path");
    reveal_strlit("ttl_scan");
    reveal_strlit("sweeper");
    reveal_strlit("intent_timeout");
    reveal_strlit("gsi_reconcile");
    reveal_strlit("true");
    assert("dev_mode"@[0] == 'd' && "emulator"@[0] == 'e' && "ttl_scan"@[0] == 't');
    assert("data_instance_id"@[0] == 'd' && "credentials_path"@[0] == 'c');
    assert("data_instance_id"@.len() == 16 && "dev_mode"@.len() == 8);
}

proof fn lemma_numeral_plain(n: nat)
    ensures
        !decimal(n).contains('&'),
{
    crate::text::decimal_round_trip(n);
    let d = decimal(n);
    if d.contains('&') {
        let i = choose|i: int| 0 <= i < d.len() && d[i] == '&';
        assert(crate::text::is_digit(d[i]));
    }
}

proof fn lemma_param_plain(name: Seq<char>, value: Seq<char>)
    requires
        plain_name(name),
        !value.contains('&'),
    ensures
        !param(name, value).contains('&'),
{
    let p = param(name, value);
    if p.contains('&') {
        let i = choose|i: int| 0 <= i < p.len() && p[i] == '&';
        if i < name.len() {
            assert(name[i] == '&');
        } else if i > name.len() {
            assert(value[i - name.len() - 1] == '&');
        }
    }
}

/// Whether an optional value can stand in a connection string.
pub open spec fn opt_fits(v: Option<Seq<char>>) -> bool {
    match v {
        Some(s) => !s.contains('&'),
        None => true,
    }
}

/// Whether settings can stand in a connection string: no part holds the
/// character that ends it.
pub open spec fn config_fits(c: ConfigView) -> bool {
    &&& !c.project.contains('/')
    &&& !c.project.contains('?')
    &&& !c.instance.contains('?')
    &&& opt_fits(c.emulator)
    &&& opt_fits(c.data_instance)
    &&& opt_fits(c.credentials)
}

proof fn lemma_opt_piece(c: ConfigView, name: Seq<char>, value: Option<Seq<char>>)
    requires
        plain_name(name),
        opt_fits(value),
    ensures
        with_params(c, opt_param(name, value)) == match value {
            Some(v) => with_param(c, param(name, v)),
            None => c,
        },
        value matches Some(v) ==> split_once(param(name, v), '=') == Some((name, v)),
        forall|i: int|
            0 <= i < opt_param(name, value).len() ==> !(#[trigger] opt_param(
                name,
                value,
            )[i]).contains('&'),
{
    if let Some(v) = value {
        lemma_one_param(c, name, v);
        lemma_param_plain(name, v);
    }
}

proof fn lemma_num_piece(c: ConfigView, name: Seq<char>, value: u64, default: u64)
    requires
        plain_name(name),
    ensures
        with_params(c, num_param(name, value, default)) == if value == default {
            c
        } else {
            with_param(c, param(name, decimal(value as nat)))
        },
        split_once(param(name, decimal(value as nat)), '=') == Some((name, decimal(value as nat))),
        read_number(decimal(value as nat), default) == value,
        forall|i: int|
            0 <= i < num_param(name, value, default).len() ==> !(#[trigger] num_param(
                name,
                value,
                default,
            )[i]).contains('&'),
{
    let d = decimal(value as nat);
    lemma_numeral_plain(value as nat);
    lemma_one_param(c, name, d);
    lemma_param_plain(name, d);
    numeral_round_trip(value as int, 0, u64::MAX as int);
}

proof fn lemma_params(c: ConfigView)
    requires
        config_fits(c),
    ensures
        forall|i: int| 0 <= i < params(c).len() ==> !(#[trigger] params(c)[i]).contains('&'),
{
    lemma_param_names();
    let k = plain_config(c.project, c.instance);
    lemma_opt_piece(k, "emulator"@, c.emulator);
    lemma_opt_piece(k, "data_instance_id"@, c.data_instance);
    lemma_opt_piece(k, "credentials_path"@, c.credentials);
    lemma_num_piece(k, "ttl_scan"@, c.ttl_scan, 60);
    lemma_num_piece(k, "sweeper"@, c.sweeper, 30);
    lemma_num_piece(k, "intent_timeout"@, c.intent_timeout, 60);
    lemma_num_piece(k, "gsi_reconcile"@, c.gsi_reconcile, 300);
    lemma_param_plain("dev_mode"@, "true"@);
}

proof fn lemma_params_read_texts(c: ConfigView)
    requires
        config_fits(c),
    ensures
        with_params(
            plain_config(c.project, c.instance),
            opt_param("emulator"@, c.emulator) + (if c.dev_mode {
                seq![param("dev_mode"@, "true"@)]
            } else {
                Seq::empty()
            }) + opt_param("data_instance_id"@, c.data_instance) + opt_param(
                "credentials_path"@,
                c.credentials,
            ),
        ) == (ConfigView {
            emulator: c.emulator,
            dev_mode: c.dev_mode,
            data_instance: c.data_instance,
            credentials: c.credentials,
            ..plain_config(c.project, c.instance)
        }),
{
    lemma_param_names();
    let k0 = plain_config(c.project, c.instance);
    let a = opt_param("emulator"@, c.emulator);
    let b = if c.dev_mode {
        seq![param("dev_mode"@, "true"@)]
    } else {
        Seq::empty()
    };
    let d = opt_param("data_instance_id"@, c.data_instance);
    let e = opt_param("credentials_path"@, c.credentials);
    lemma_with_params_concat(k0, a + b + d, e);
    lemma_with_params_concat(k0, a + b, d);
    lemma_with_params_concat(k0, a, b);
    let k1 = with_params(k0, a);
    lemma_opt_piece(k0, "emulator"@, c.emulator);
    assert(k1 == ConfigView { emulator: c.emulator, ..k0 });
    let k2 = with_params(k1, b);
    lemma_one_param(k1, "dev_mode"@, "true"@);
    assert(k2 == ConfigView { dev_mode: c.dev_mode, ..k1 });
    let k3 = with_params(k2, d);
    lemma_opt_piece(k2, "data_instance_id"@, c.data_instance);
    assert(k3 == ConfigView { data_instance: c.data_instance, ..k2 });
    lemma_opt_piece(k3, "credentials_path"@, c.credentials);
}

proof fn lemma_params_read(c: ConfigView)
    requires
        config_fits(c),
    ensures
        with_params(plain_config(c.project, c.instance), params(c)) == (ConfigView {
            pool_size: 20,
            catalog_pool_size: None,
            ..c
        }),
{
    lemma_param_names();
    lemma_params_read_texts(c);
    let k0 = plain_config(c.project, c.instance);
    let head = opt_param("emulator"@, c.emulator) + (if c.dev_mode {
        seq![param("dev_mode"@, "true"@)]
    } else {
        Seq::empty()
    }) + opt_param("data_instance_id"@, c.data_instance) + opt_param(
        "credentials_path"@,
        c.credentials,
    );
    let f = num_param("ttl_scan"@, c.ttl_scan, 60);
    let g = num_param("sweeper"@, c.sweeper, 30);
    let h = num_param("intent_timeout"@, c.intent_timeout, 60);
    let i = num_param("gsi_reconcile"@, c.gsi_reconcile, 300);
    lemma_with_params_concat(k0, head + f + g + h, i);
    lemma_with_params_concat(k0, head + f + g, h);
    lemma_with_params_concat(k0, head + f, g);
    lemma_with_params_concat(k0, head, f);
    let k4 = with_params(k0, head);
    lemma_num_piece(k4, "ttl_scan"@, c.ttl_scan, 60);
    let k5 = with_params(k4, f);
    assert(k5 == ConfigView { ttl_scan: c.ttl_scan, ..k4 });
    lemma_num_piece(k5, "sweeper"@, c.sweeper, 30);
    let k6 = with_params(k5, g);
    assert(k6 == ConfigView { sweeper: c.sweeper, ..k5 });
    lemma_num_piece(k6, "intent_timeout"@, c.intent_timeout, 60);
    let k7 = with_params(k6, h);
    assert(k7 == ConfigView { intent_timeout: c.intent_timeout, ..k6 });
    lemma_num_piece(k7, "gsi_reconcile"@, c.gsi_reconcile, 300);
}

/// Reading the connection string of settings gives them back, but for the sizes
/// of the pools, which are not in it.
pub proof fn connection_round_trip(c: ConfigView)
    requires
        config_fits(c),
    ensures
        parsed_config(connection_text(c)) == Ok::<ConfigView, Seq<char>>(
            ConfigView { pool_size: 20, catalog_pool_size: None, ..c },
        ),
{
    reveal_strlit("/");
    reveal_strlit("?");
    assert("/"@ =~= seq!['/']);
    assert("?"@ =~= seq!['?']);
    let s = connection_text(c);
    let head = "bigtable://"@;
    let path = c.project + seq!['/'] + c.instance;
    let l = params(c);
    lemma_params(c);
    lemma_params_read(c);
    lemma_split_once_at(c.project, '/', c.instance);
    assert(!path.contains('?')) by {
        if path.contains('?') {
            let i = choose|i: int| 0 <= i < path.len() && path[i] == '?';
            if i < c.project.len() {
                assert(c.project[i] == '?');
            } else if i > c.project.len() {
                assert(c.instance[i - c.project.len() - 1] == '?');
            }
        }
    }
    if l.len() == 0 {
        assert(s =~= head + path);
        assert(s.subrange(0, head.len() as int) =~= head);
        assert(s.skip(head.len() as int) =~= path);
        lemma_no_split(path, '?');
        assert(l =~= Seq::<Seq<char>>::empty());
    } else {
        let q = joined(l, '&');
        let rest = path + seq!['?'] + q;
        assert(s =~= head + rest);
        assert(s.subrange(0, head.len() as int) =~= head);
        assert(s.skip(head.len() as int) =~= rest);
        lemma_split_once_at(path, '?', q);
        split_undoes_join(l, '&');
    }
}

/// A parameter sets what it names and nothing else; one with another name sets
/// nothing, and a number that cannot be read leaves what was there.
pub proof fn parameters_set_what_they_name(c: ConfigView, name: Seq<char>, v: Seq<char>)
    requires
        !name.contains('='),
    ensures
        ({
            let r = with_param(c, name + seq!['='] + v);
            let number = parse_unsigned(v, u64::MAX as nat);
            &&& r.project == c.project
            &&& r.instance == c.instance
            &&& r.pool_size == c.pool_size
            &&& r.catalog_pool_size == c.catalog_pool_size
            &&& r.emulator == if name == "emulator"@ {
                Some(v)
            } else {
                c.emulator
            }
            &&& r.data_instance == if name == "data_instance_id"@ {
                Some(v)
            } else {
                c.data_instance
            }
            &&& r.credentials == if name == "credentials_path"@ {
                Some(v)
            } else {
                c.credentials
            }
            &&& r.dev_mode == if name == "dev_mode"@ {
                v == "true"@ || v == "1"@
            } else {
                c.dev_mode
            }
            &&& r.ttl_scan == if name == "ttl_scan"@ && number is Some {
                number->0 as u64
            } else {
                c.ttl_scan
            }
            &&& r.sweeper == if name == "sweeper"@ && number is Some {
                number->0 as u64
            } else {
                c.sweeper
            }
            &&& r.intent_timeout == if name == "intent_timeout"@ && number is Some {
                number->0 as u64
            } else {
                c.intent_timeout
            }
            &&& r.gsi_reconcile == if name == "gsi_reconcile"@ && number is Some {
                number->0 as u64
            } else {
                c.gsi_reconcile
            }
        }),
{
    lemma_split_once_at(name, '=', v);
    reveal_strlit("emulator");
    reveal_strlit("dev_mode");
    reveal_strlit("data_instance_id");
    reveal_strlit("credentials_path");
    reveal_strlit("ttl_scan");
    reveal_strlit("sweeper");
    reveal_strlit("intent_timeout");
    reveal_strlit("gsi_reconcile");
    assert("emulator"@[0] == 'e' && "dev_mode"@[0] == 'd' && "data_instance_id"@[0] == 'd');
    assert("dev_mode"@.len() != "data_instance_id"@.len());
    assert("credentials_path"@[0] == 'c' && "ttl_scan"@[0] == 't' && "sweeper"@[0] == 's');
    assert("intent_timeout"@[0] == 'i' && "gsi_reconcile"@[0] == 'g');
}

} // verus!
