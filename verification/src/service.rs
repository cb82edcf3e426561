//! The command service: a stateless dispatcher that turns one request into
//! exactly one storage call and one response.
use vstd::prelude::*;

use crate::storage::{table_listing, Storage};
use crate::types::{
    kvpair_views, value_views, CommandRequest, CommandResponse, KvError, Kvpair, RequestModel,
    ResponseModel, Status, Value, ValueModel,
};

verus! {

/// The dispatch table, as a relation between the request, the model before,
/// the response, and the model after. For a scan, the pairs come in whatever
/// order the backend provides, so they are constrained as a listing rather
/// than pinned to one sequence.
pub open spec fn dispatches(
    req: RequestModel,
    m0: Map<(Seq<char>, Seq<char>), ValueModel>,
    resp: ResponseModel,
    m1: Map<(Seq<char>, Seq<char>), ValueModel>,
) -> bool {
    match req {
        RequestModel::Get { table, key } => m1 == m0 && (if m0.dom().contains((table, key)) {
            resp == (ResponseModel {
                status: Status::Success,
                message: Seq::empty(),
                values: seq![m0[(table, key)]],
                pairs: Seq::empty(),
            })
        } else {
            resp == (ResponseModel {
                status: Status::NotFound,
                message: "not found"@,
                values: Seq::empty(),
                pairs: Seq::empty(),
            })
        }),
        RequestModel::Put { table, key, value } => m1 == m0.insert((table, key), value) && (if m0
            .dom().contains((table, key)) {
            resp == (ResponseModel {
                status: Status::Success,
                message: Seq::empty(),
                values: seq![m0[(table, key)]],
                pairs: Seq::empty(),
            })
        } else {
            resp == (ResponseModel {
                status: Status::Success,
                message: Seq::empty(),
                values: Seq::empty(),
                pairs: Seq::empty(),
            })
        }),
        RequestModel::Delete { table, key } => m1 == m0.remove((table, key)) && (if m0
            .dom().contains((table, key)) {
            resp == (ResponseModel {
                status: Status::Success,
                message: Seq::empty(),
                values: seq![m0[(table, key)]],
                pairs: Seq::empty(),
            })
        } else {
            resp == (ResponseModel {
                status: Status::Success,
                message: Seq::empty(),
                values: Seq::empty(),
                pairs: Seq::empty(),
            })
        }),
        RequestModel::Contains { table, key } => m1 == m0 && resp == (ResponseModel {
            status: Status::Success,
            message: if m0.dom().contains((table, key)) {
                "true"@
            } else {
                "false"@
            },
            values: Seq::empty(),
            pairs: Seq::empty(),
        }),
        RequestModel::GetAll { table } => m1 == m0 && resp.status == Status::Success
            && resp.message == Seq::<char>::empty() && resp.values == Seq::<ValueModel>::empty()
            && table_listing(m0, table, resp.pairs),
    }
}

fn response_with_values(status: Status, message: String, values: Vec<Value>) -> (r:
    CommandResponse)
    ensures
        r@ == (ResponseModel {
            status,
            message: message@,
            values: value_views(values@),
            pairs: Seq::empty(),
        }),
{
    let r = CommandResponse { status, message, values, pairs: Vec::new() };
    proof {
        assert(kvpair_views(r.pairs@) =~= Seq::<crate::types::KvpairModel>::empty());
    }
    r
}

fn ok_with_value(v: Value) -> (r: CommandResponse)
    ensures
        r@ == (ResponseModel {
            status: Status::Success,
            message: Seq::empty(),
            values: seq![v@],
            pairs: Seq::empty(),
        }),
{
    let mut values: Vec<Value> = Vec::new();
    values.push(v);
    proof {
        assert(value_views(values@) =~= seq![values@[0]@]);
    }
    response_with_values(Status::Success, String::new(), values)
}

fn ok_empty() -> (r: CommandResponse)
    ensures
        r@ == (ResponseModel {
            status: Status::Success,
            message: Seq::empty(),
            values: Seq::empty(),
            pairs: Seq::empty(),
        }),
{
    proof {
        assert(value_views(Seq::<Value>::empty()) =~= Seq::<ValueModel>::empty());
    }
    response_with_values(Status::Success, String::new(), Vec::new())
}

fn status_message(status: Status, message: String) -> (r: CommandResponse)
    ensures
        r@ == (ResponseModel {
            status,
            message: message@,
            values: Seq::empty(),
            pairs: Seq::empty(),
        }),
{
    proof {
        assert(value_views(Seq::<Value>::empty()) =~= Seq::<ValueModel>::empty());
    }
    response_with_values(status, message, Vec::new())
}

/// An error-status response carrying the failure detail; the fault never
/// terminates the connection by itself.
fn error_response(e: &KvError) -> (r: CommandResponse)
    ensures
        r@.status == Status::Error,
{
    status_message(Status::Error, e.message())
}

/// Executes one request against the storage: exactly one storage call, one
/// response, following the dispatch table. A storage that cannot fail yields
/// exactly the dispatch table's response; a backend fault becomes an
/// error-status response.
pub fn execute<S: Storage>(store: &mut S, cmd: CommandRequest) -> (r: CommandResponse)
    requires
        old(store).inv(),
    ensures
        final(store).inv(),
        final(store).may_fail() == old(store).may_fail(),
        !old(store).may_fail() ==> dispatches(
            cmd@,
            old(store).model(),
            r@,
            final(store).model(),
        ),
        dispatches(cmd@, old(store).model(), r@, final(store).model()) || r@.status
            == Status::Error,
{
    match cmd {
        CommandRequest::Get { table, key } => {
            match store.get(table.as_str(), key.as_str()) {
                Ok(Some(v)) => ok_with_value(v),
                Ok(None) => status_message(Status::NotFound, "not found".to_owned()),
                Err(e) => error_response(&e),
            }
        },
        CommandRequest::Put { table, key, value } => {
            match store.set(table.as_str(), key.as_str(), value) {
                Ok(Some(prev)) => ok_with_value(prev),
                Ok(None) => ok_empty(),
                Err(e) => error_response(&e),
            }
        },
        CommandRequest::Delete { table, key } => {
            match store.del(table.as_str(), key.as_str()) {
                Ok(Some(prev)) => ok_with_value(prev),
                Ok(None) => ok_empty(),
                Err(e) => error_response(&e),
            }
        },
        CommandRequest::Contains { table, key } => {
            match store.contains(table.as_str(), key.as_str()) {
                Ok(b) => {
                    if b {
                        status_message(Status::Success, "true".to_owned())
                    } else {
                        status_message(Status::Success, "false".to_owned())
                    }
                },
                Err(e) => error_response(&e),
            }
        },
        CommandRequest::GetAll { table } => {
            match store.get_all(table.as_str()) {
                Ok(pairs) => {
                    proof {
                        assert(value_views(Seq::<Value>::empty()) =~= Seq::<ValueModel>::empty());
                    }
                    CommandResponse {
                        status: Status::Success,
                        message: String::new(),
                        values: Vec::new(),
                        pairs,
                    }
                },
                Err(e) => error_response(&e),
            }
        },
    }
}

// ---------------------------------------------------------------------------
// Laws of the dispatch over the model.
// ---------------------------------------------------------------------------
/// Table isolation: a write under one table is invisible under every other
/// table, whatever the key.
pub proof fn lemma_table_isolation(
    m: Map<(Seq<char>, Seq<char>), ValueModel>,
    ta: Seq<char>,
    tb: Seq<char>,
    k: Seq<char>,
    v: ValueModel,
)
    requires
        ta != tb,
    ensures
        m.insert((ta, k), v).dom().contains((tb, k)) == m.dom().contains((tb, k)),
        m.dom().contains((tb, k)) ==> m.insert((ta, k), v)[(tb, k)] == m[(tb, k)],
{
}

/// Set returns the previous value: after a set, the pair holds the new value,
/// so a second set on the same pair returns the first value.
pub proof fn lemma_set_returns_previous(
    m: Map<(Seq<char>, Seq<char>), ValueModel>,
    t: Seq<char>,
    k: Seq<char>,
    v: ValueModel,
)
    ensures
        m.insert((t, k), v).dom().contains((t, k)),
        m.insert((t, k), v)[(t, k)] == v,
{
}

/// Delete removes: after a delete, the pair is absent, so a following get
/// returns nothing; deleting an absent pair leaves the model as it was.
pub proof fn lemma_delete_removes(
    m: Map<(Seq<char>, Seq<char>), ValueModel>,
    t: Seq<char>,
    k: Seq<char>,
)
    ensures
        !m.remove((t, k)).dom().contains((t, k)),
        !m.dom().contains((t, k)) ==> m.remove((t, k)) == m,
{
    if !m.dom().contains((t, k)) {
        assert(m.remove((t, k)) =~= m);
    }
}

} // verus!
