//! Administration of the tables of an instance: what is asked for, and what the
//! answers mean.

use vstd::prelude::*;
use vstd::string::*;

use crate::bigtable::{instance_path, BigtableClient};
use crate::text::{cat2, cat3, cat5, copy_texts, opt_view, rsplit_once, split_at_last, text, views};

verus! {

pub const BIGTABLE_ADMIN_ENDPOINT: &'static str = "https://bigtableadmin.googleapis.com:443";

pub const BIGTABLE_ADMIN_HOST: &'static str = "bigtableadmin.googleapis.com";

pub const BIGTABLE_ADMIN_SCOPE: &'static str = "https://www.googleapis.com/auth/bigtable.admin";

/// Adds an authorization to every request, where there is one.
#[derive(Debug, PartialEq, Eq)]
pub struct AuthInterceptor {
    pub bearer: Option<String>,
}

impl AuthInterceptor {
    /// Authorizes with a token; without one, not at all.
    pub fn new(token: Option<&str>) -> (r: AuthInterceptor)
        ensures
            opt_view(r.bearer) == match token {
                Some(t) => Some("Bearer "@ + t@),
                None => None,
            },
    {
        AuthInterceptor {
            bearer: match token {
                Some(t) => Some(cat2("Bearer ", t)),
                None => None,
            },
        }
    }
}

/// Why an administrative request failed.
#[derive(Clone, Copy, Debug, PartialEq, Eq, Structural)]
pub enum AdminCode {
    AlreadyExists,
    FailedPrecondition,
    NotFound,
    Other,
}

/// An answer that is an error: its code and its text.
#[derive(Debug, PartialEq, Eq)]
pub struct AdminStatus {
    pub code: AdminCode,
    pub message: String,
}

/// A request for a table with families.
#[derive(Debug, PartialEq, Eq)]
pub struct CreateTableRequest {
    pub parent: String,
    pub table_id: String,
    pub families: Vec<String>,
}

/// The tables of an instance.
#[derive(Debug, PartialEq, Eq)]
pub struct AdminClient {
    pub instance_name: String,
}

/// What an answer comes to: some errors are as good as success.
pub open spec fn admin_outcome(
    answer: Result<(), AdminStatus>,
    benign: spec_fn(AdminCode) -> bool,
    what: Seq<char>,
    table: Seq<char>,
) -> Result<(), Seq<char>> {
    match answer {
        Ok(_) => Ok(()),
        Err(s) => if benign(s.code) {
            Ok(())
        } else {
            Err(what + "("@ + table + "): "@ + s.message@)
        },
    }
}

pub open spec fn unit_view(r: Result<(), String>) -> Result<(), Seq<char>> {
    match r {
        Ok(_) => Ok(()),
        Err(m) => Err(m@),
    }
}

fn failure(what: &str, table_id: &str, message: &str) -> (r: String)
    ensures
        r@ == what@ + "("@ + table_id@ + "): "@ + message@,
{
    cat5(what, "(", table_id, "): ", message)
}

impl AdminClient {
    /// The tables of the instance of a client.
    pub fn new(client: &BigtableClient) -> (r: AdminClient)
        ensures
            r.instance_name@ == instance_path(client.project_id@, client.instance_id@),
    {
        AdminClient { instance_name: client.instance_name() }
    }

    /// Where administrative requests go: to the emulator in the clear, or to
    /// Google Cloud.
    pub fn endpoint(client: &BigtableClient) -> (r: String)
        ensures
            r@ == match client.emulator_host {
                Some(h) => "http://"@ + h@,
                None => BIGTABLE_ADMIN_ENDPOINT@,
            },
    {
        match &client.emulator_host {
            Some(h) => cat2("http://", h.as_str()),
            None => text(BIGTABLE_ADMIN_ENDPOINT),
        }
    }

    /// The request for a table.
    pub fn create_table(&self, table_id: &str, families: &[String]) -> (r: CreateTableRequest)
        ensures
            r.parent@ == self.instance_name@,
            r.table_id@ == table_id@,
            views(r.families@) == views(families@),
    {
        CreateTableRequest {
            parent: text(self.instance_name.as_str()),
            table_id: text(table_id),
            families: copy_texts(families),
        }
    }

    /// The resource name of a table.
    pub fn table_name(&self, table_id: &str) -> (r: String)
        ensures
            r@ == self.instance_name@ + "/tables/"@ + table_id@,
    {
        cat3(self.instance_name.as_str(), "/tables/", table_id)
    }

    /// What the answer to a request for a table comes to: a table that is there
    /// already will do.
    pub fn created(table_id: &str, answer: Result<(), AdminStatus>) -> (r: Result<(), String>)
        ensures
            unit_view(r) == admin_outcome(
                answer,
                |c: AdminCode| c == AdminCode::AlreadyExists,
                "create_table"@,
                table_id@,
            ),
    {
        match answer {
            Ok(_) => Ok(()),
            Err(s) => if s.code == AdminCode::AlreadyExists {
                Ok(())
            } else {
                Err(failure("create_table", table_id, s.message.as_str()))
            },
        }
    }

    /// What the answer to a request for families comes to: families that are
    /// there already will do.
    pub fn ensure_families(table_id: &str, answer: Result<(), AdminStatus>) -> (r: Result<
        (),
        String,
    >)
        ensures
            unit_view(r) == admin_outcome(
                answer,
                |c: AdminCode|
                    c == AdminCode::AlreadyExists || c == AdminCode::FailedPrecondition,
                "ensure_families"@,
                table_id@,
            ),
    {
        match answer {
            Ok(_) => Ok(()),
            Err(s) => if s.code == AdminCode::AlreadyExists || s.code
                == AdminCode::FailedPrecondition {
                Ok(())
            } else {
                Err(failure("ensure_families", table_id, s.message.as_str()))
            },
        }
    }

    /// What the answer to the deletion of a table comes to: a table that is gone
    /// already will do.
    pub fn delete_table(table_id: &str, answer: Result<(), AdminStatus>) -> (r: Result<(), String>)
        ensures
            unit_view(r) == admin_outcome(
                answer,
                |c: AdminCode| c == AdminCode::NotFound,
                "delete_table"@,
                table_id@,
            ),
    {
        match answer {
            Ok(_) => Ok(()),
            Err(s) => if s.code == AdminCode::NotFound {
                Ok(())
            } else {
                Err(failure("delete_table", table_id, s.message.as_str()))
            },
        }
    }

    /// The tables by their short names, which are the last parts of their
    /// resource names.
    pub fn list_tables(names: &[String]) -> (r: Vec<String>)
        ensures
            r@.len() == names@.len(),
            forall|i: int|
                0 <= i < r@.len() ==> (#[trigger] r@[i])@ == last_part(names@[i]@),
    {
        let mut out: Vec<String> = Vec::new();
        let mut i: usize = 0;
        while i < names.len()
            invariant
                i <= names.len(),
                out@.len() == i,
                forall|j: int| 0 <= j < i ==> (#[trigger] out@[j])@ == last_part(names@[j]@),
            decreases names.len() - i,
        {
            let short = match split_at_last(names[i].as_str(), '/') {
                Some((_, last)) => last,
                None => text(names[i].as_str()),
            };
            out.push(short);
            i = i + 1;
        }
        out
    }
}

/// What is behind the last slash, or all.
pub open spec fn last_part(name: Seq<char>) -> Seq<char> {
    match rsplit_once(name, '/') {
        Some((_, last)) => last,
        None => name,
    }
}

/// The short name of a table is what it was asked for under.
pub proof fn table_names_shorten(instance: Seq<char>, table: Seq<char>)
    requires
        !table.contains('/'),
    ensures
        last_part(instance + "/tables/"@ + table) == table,
{
    reveal_strlit("/tables/");
    let s = instance + "/tables/"@ + table;
    let i = (instance.len() + 7) as int;
    assert(s[i] == '/');
    assert forall|j: int| i < j < s.len() implies s[j] != '/' by {
        assert(s[j] == table[j - i - 1]);
        assert(table.contains(table[j - i - 1]));
    }
    crate::text::lemma_last_index_is(s, '/', i);
    assert(s.skip(i + 1) =~= table);
}

/// An answer of the service is good exactly where it is no error, or one that is
/// expected; any other names what was tried on which table, and why it failed.
pub proof fn expected_errors_alone_are_passed_over(
    answer: Result<(), AdminStatus>,
    benign: spec_fn(AdminCode) -> bool,
    what: Seq<char>,
    table: Seq<char>,
)
    ensures
        admin_outcome(answer, benign, what, table) is Ok <==> (answer matches Err(s) ==> benign(
            s.code,
        )),
        admin_outcome(answer, benign, what, table) matches Err(m) ==> m == what + "("@ + table
            + "): "@ + answer->Err_0.message@,
{
}

} // verus!
