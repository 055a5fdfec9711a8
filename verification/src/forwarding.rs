//! How far a request travels: the hop budget bounds the number of times it is
//! passed on, whatever the nodes on its way know of the leader.

use vstd::prelude::*;
use crate::node::{ForwardError, ForwardView, HandledView, NodeState};
use crate::protocol::Role;

verus! {

/// How often a request is passed on along `path`: the states of the nodes that it
/// reaches, in the order in which it reaches them. It travels on from a node only
/// where that node passes it on.
pub open spec fn forwards(path: Seq<NodeState>, req: ForwardView) -> nat
    decreases path.len(),
{
    if path.len() == 0 {
        0
    } else {
        match path[0].handled(req) {
            Ok(HandledView::Forward { to, request }) => 1 + forwards(path.drop_first(), request),
            _ => 0,
        }
    }
}

/// What the last node that the request reaches along `path` does with it; `None`
/// where the path ends before a node has taken or refused it.
pub open spec fn last_answer(path: Seq<NodeState>, req: ForwardView) -> Option<
    Result<HandledView, ForwardError>,
>
    decreases path.len(),
{
    if path.len() == 0 {
        None
    } else {
        match path[0].handled(req) {
            Ok(HandledView::Forward { to, request }) => last_answer(path.drop_first(), request),
            answer => Some(answer),
        }
    }
}

/// Forward loop termination, first half. A request with a budget of `n` hops is
/// passed on at most `n` times, along any path.
pub proof fn law_forward_bound(path: Seq<NodeState>, req: ForwardView)
    ensures
        forwards(path, req) <= req.forward_to_leader,
    decreases path.len(),
{
    if path.len() > 0 {
        match path[0].handled(req) {
            Ok(HandledView::Forward { to, request }) => {
                law_forward_bound(path.drop_first(), request);
            },
            _ => {},
        }
    }
}

/// Forward loop termination, second half. A write that has used its whole budget of
/// hops and then reaches one more node that is no leader fails there with
/// `ForwardLoop`.
pub proof fn law_forward_loop(path: Seq<NodeState>, req: ForwardView)
    requires
        req.body is Write,
        forwards(path, req) == req.forward_to_leader,
        path.len() > req.forward_to_leader,
        path[req.forward_to_leader as int].engine.role != Role::Leader,
    ensures
        last_answer(path, req) == Some(
            Err::<HandledView, ForwardError>(ForwardError::ForwardLoop),
        ),
    decreases path.len(),
{
    match path[0].handled(req) {
        Ok(HandledView::Forward { to, request }) => {
            let rest = path.drop_first();
            assert(rest[request.forward_to_leader as int] == path[req.forward_to_leader as int]);
            law_forward_loop(rest, request);
        },
        _ => {},
    }
}

} // verus!
