//! Retention cleanup: which completed sessions are older than the
//! retention period and should be deleted, and the tally of a cleanup
//! run.

use vstd::prelude::*;

use crate::sessions::SessionData;
use crate::textops::string_clone;

verus! {

/// The tally of one cleanup run.
pub struct CleanupStats {
    pub deleted_count: usize,
    pub failed_count: usize,
}

/// Whether a session has ended and did so before the cutoff time.
pub open spec fn spec_expired(s: SessionData, cutoff: int) -> bool {
    match s.ended_at {
        Some(e) => e < cutoff,
        None => false,
    }
}

/// The ids of the expired sessions, in order.
pub open spec fn expired_ids(ss: Seq<SessionData>, cutoff: int) -> Seq<Seq<char>>
    decreases ss.len(),
{
    if ss.len() == 0 {
        Seq::empty()
    } else {
        let rest = expired_ids(ss.drop_last(), cutoff);
        if spec_expired(ss.last(), cutoff) {
            rest.push(ss.last().id@)
        } else {
            rest
        }
    }
}

/// The sessions to delete under a retention policy: those that ended
/// more than `retention_days` days before `now_ts`. Sessions that have
/// not ended are kept.
pub fn select_expired_sessions(
    sessions: &Vec<SessionData>,
    now_ts: i64,
    retention_days: i64,
) -> (r: Vec<String>)
    requires
        0 <= now_ts,
        0 <= retention_days <= i64::MAX / 86400,
    ensures
        r.deep_view() == expired_ids(sessions@, now_ts as int - retention_days as int * 86400),
{
    let cutoff: i64 = now_ts - retention_days * 86400;
    let n = sessions.len();
    let mut r: Vec<String> = Vec::new();
    let mut i: usize = 0;
    proof {
        assert(sessions@.take(0) =~= Seq::<SessionData>::empty());
        assert(r.deep_view() =~= expired_ids(sessions@.take(0), cutoff as int));
    }
    while i < n
        invariant
            0 <= i <= n == sessions@.len(),
            cutoff == now_ts as int - retention_days as int * 86400,
            r.deep_view() == expired_ids(sessions@.take(i as int), cutoff as int),
        decreases n - i,
    {
        proof {
            assert(sessions@.take(i as int + 1).drop_last() =~= sessions@.take(i as int));
            assert(sessions@.take(i as int + 1).last() == sessions@[i as int]);
        }
        let expired = match sessions[i].ended_at {
            Some(e) => e < cutoff,
            None => false,
        };
        if expired {
            let ghost prefix = r.deep_view();
            r.push(string_clone(sessions[i].id.as_str()));
            proof {
                assert(r.deep_view() =~= prefix.push(sessions@[i as int].id@));
            }
        }
        i = i + 1;
    }
    proof {
        assert(sessions@.take(n as int) =~= sessions@);
    }
    r
}

} // verus!
