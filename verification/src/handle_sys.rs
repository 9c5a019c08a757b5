//! Handlers that need no storage access (`PING`, `ECHO`) and the
//! administrative sweep trigger (`CLEAN`).

use vstd::prelude::*;

use crate::command::{err_arg_num, err_arg_num_v, ok_reply, ok_v, pong_reply, pong_v, Command};
use crate::protocol::{resp_view, RespV, RespValue};
use crate::storage::{spec_clean, Database, StoreV};

verus! {

/// `PING`: `PONG` without an argument, the first argument echoed back
/// otherwise.
pub open spec fn ping_spec(args: Seq<Seq<u8>>) -> RespV {
    if args.len() == 0 {
        pong_v()
    } else {
        RespV::BulkString(Some(args[0]))
    }
}

/// `ECHO msg`: the argument echoed back.
pub open spec fn echo_spec(args: Seq<Seq<u8>>) -> RespV {
    if args.len() == 1 {
        RespV::BulkString(Some(args[0]))
    } else {
        err_arg_num_v()
    }
}

/// `CLEAN`: sweeps expired entries and acknowledges.
pub open spec fn clean_spec(m: StoreV, args: Seq<Seq<u8>>, now: u128) -> (RespV, StoreV) {
    if args.len() == 0 {
        (ok_v(), spec_clean(m, now))
    } else {
        (err_arg_num_v(), m)
    }
}

pub struct HandleSys;

impl HandleSys {
    pub fn handle_ping(command: &Command) -> (r: RespValue)
        ensures
            resp_view(r) == ping_spec(command.args_view()),
    {
        if command.args.len() == 0 {
            pong_reply()
        } else {
            RespValue::BulkString(Some(vstd::slice::slice_to_vec(command.args[0].as_slice())))
        }
    }

    pub fn handle_echo(command: &Command) -> (r: RespValue)
        ensures
            resp_view(r) == echo_spec(command.args_view()),
    {
        if command.args.len() == 1 {
            RespValue::BulkString(Some(vstd::slice::slice_to_vec(command.args[0].as_slice())))
        } else {
            err_arg_num()
        }
    }

    pub fn handle_clean(db: &mut Database, command: &Command, now: u128) -> (r: RespValue)
        requires
            old(db).wf(),
        ensures
            final(db).wf(),
            (resp_view(r), final(db)@) == clean_spec(old(db)@, command.args_view(), now),
    {
        if command.args.len() == 0 {
            db.clean_expired_at(now);
            ok_reply()
        } else {
            err_arg_num()
        }
    }
}

} // verus!
