//! Read-side queries over listed documents: case-insensitive substring
//! search across title and body, and the age filter on the update
//! instant.

use vstd::prelude::*;
use crate::mem::{Mem, MemV};
use crate::text::contains_seq;
use crate::time::{epoch_seconds_of, Timestamp};

verus! {

/// What lowercasing a piece of text yields.
pub uninterp spec fn lower_of(s: Seq<char>) -> Seq<char>;

/// Relies on str::to_lowercase: the result depends on the characters
/// alone, and an empty string stays empty.
#[verifier::external_body]
fn lowercase(s: &str) -> (r: String)
    ensures
        r@ == lower_of(s@),
        s@.len() == 0 ==> r@.len() == 0,
{
    s.to_lowercase()
}

/// A document matches a query when the lowered query occurs in its
/// lowered title or its lowered body.
pub open spec fn query_matches(q: Seq<char>, m: MemV) -> bool {
    contains_seq(lower_of(m.title), lower_of(q)) || contains_seq(
        lower_of(m.content),
        lower_of(q),
    )
}

/// The matching documents, in their given order.
pub open spec fn matching_of(q: Seq<char>, ms: Seq<MemV>) -> Seq<MemV>
    decreases ms.len(),
{
    if ms.len() == 0 {
        Seq::empty()
    } else if query_matches(q, ms[0]) {
        seq![ms[0]] + matching_of(q, ms.skip(1))
    } else {
        matching_of(q, ms.skip(1))
    }
}

/// Keep the documents whose lowered title or body holds the lowered
/// query.
pub fn find_matches(mems: Vec<Mem>, query: &str) -> (r: Vec<Mem>)
    ensures
        r@.map_values(|m: Mem| m@) == matching_of(
            query@,
            mems@.map_values(|m: Mem| m@),
        ),
{
    let ghost msv = mems@.map_values(|m: Mem| m@);
    let q = lowercase(query);
    let mut src = mems;
    let mut out: Vec<Mem> = Vec::new();
    proof {
        assert(msv.skip(0) =~= msv);
    }
    let ghost mut done: int = 0;
    while src.len() > 0
        invariant
            q@ == lower_of(query@),
            0 <= done <= msv.len(),
            src@.map_values(|m: Mem| m@) == msv.skip(done),
            matching_of(query@, msv) == out@.map_values(|m: Mem| m@)
                + matching_of(query@, msv.skip(done)),
        decreases src@.len(),
    {
        let ghost sv = src@.map_values(|m: Mem| m@);
        let m = src.remove(0);
        proof {
            assert(m@ == sv[0]);
            assert(sv[0] == msv[done]);
            assert(src@.map_values(|m2: Mem| m2@) =~~= sv.skip(1));
            assert(sv.skip(1) =~~= msv.skip(done + 1));
        }
        let lt = lowercase(m.title.as_str());
        let lc = lowercase(m.content.as_str());
        let hit = crate::text::str_contains(lt.as_str(), q.as_str())
            || crate::text::str_contains(lc.as_str(), q.as_str());
        if hit {
            let ghost prevmap = out@.map_values(|m2: Mem| m2@);
            proof {
                assert(query_matches(query@, msv[done]));
            }
            out.push(m);
            proof {
                assert(out@.map_values(|m2: Mem| m2@) =~~= prevmap.push(
                    msv[done],
                ));
                assert(prevmap.push(msv[done]) + matching_of(
                    query@,
                    msv.skip(done + 1),
                ) =~~= prevmap + (seq![msv[done]] + matching_of(
                    query@,
                    msv.skip(done + 1),
                )));
            }
        } else {
            proof {
                assert(!query_matches(query@, msv[done]));
            }
        }
        proof {
            done = done + 1;
        }
    }
    proof {
        assert(msv.skip(done) =~= Seq::<MemV>::empty());
        assert(out@.map_values(|m: Mem| m@) =~= matching_of(query@, msv));
    }
    out
}

/// A document is stale when its update instant lies more than the
/// threshold number of days before now.
pub open spec fn is_stale(m: MemV, now_s: int, days: int) -> bool {
    now_s - epoch_seconds_of(m.updated_at) > days * 86400
}

/// The stale documents, in their given order.
pub open spec fn stale_of(ms: Seq<MemV>, now_s: int, days: int) -> Seq<MemV>
    decreases ms.len(),
{
    if ms.len() == 0 {
        Seq::empty()
    } else if is_stale(ms[0], now_s, days) {
        seq![ms[0]] + stale_of(ms.skip(1), now_s, days)
    } else {
        stale_of(ms.skip(1), now_s, days)
    }
}

/// Keep the documents not updated within the threshold number of days
/// before the given instant.
pub fn filter_stale(mems: Vec<Mem>, now_ts: &Timestamp, days: u32) -> (r:
    Vec<Mem>)
    requires
        now_ts.valid(),
        forall|i: int|
            0 <= i < mems@.len() ==> (#[trigger] mems@[i]).updated_at.valid(),
    ensures
        r@.map_values(|m: Mem| m@) == stale_of(
            mems@.map_values(|m: Mem| m@),
            epoch_seconds_of(*now_ts),
            days as int,
        ),
{
    let ghost msv = mems@.map_values(|m: Mem| m@);
    let ghost now_s = epoch_seconds_of(*now_ts);
    let now_e = now_ts.epoch_seconds();
    let threshold = (days as i64) * 86400;
    let mut src = mems;
    let mut out: Vec<Mem> = Vec::new();
    proof {
        assert(msv.skip(0) =~= msv);
    }
    let ghost mut done: int = 0;
    while src.len() > 0
        invariant
            now_e == now_s,
            threshold == days * 86400,
            0 <= done <= msv.len(),
            src@.map_values(|m: Mem| m@) == msv.skip(done),
            forall|i: int|
                0 <= i < src@.len() ==> (#[trigger] src@[i]).updated_at
                    .valid(),
            stale_of(msv, now_s, days as int) == out@.map_values(
                |m: Mem| m@,
            ) + stale_of(msv.skip(done), now_s, days as int),
        decreases src@.len(),
    {
        let ghost sv = src@.map_values(|m: Mem| m@);
        proof {
            assert(src@[0].updated_at.valid());
        }
        let m = src.remove(0);
        proof {
            assert(m@ == sv[0]);
            assert(sv[0] == msv[done]);
            assert(src@.map_values(|m2: Mem| m2@) =~~= sv.skip(1));
            assert(sv.skip(1) =~~= msv.skip(done + 1));
            assert(forall|i: int|
                0 <= i < src@.len() ==> (#[trigger] src@[i]).updated_at
                    .valid());
        }
        let up = m.updated_at.epoch_seconds();
        let hit = now_e - up > threshold;
        if hit {
            let ghost prevmap = out@.map_values(|m2: Mem| m2@);
            proof {
                assert(is_stale(msv[done], now_s, days as int));
            }
            out.push(m);
            proof {
                assert(out@.map_values(|m2: Mem| m2@) =~~= prevmap.push(
                    msv[done],
                ));
                assert(prevmap.push(msv[done]) + stale_of(
                    msv.skip(done + 1),
                    now_s,
                    days as int,
                ) =~~= prevmap + (seq![msv[done]] + stale_of(
                    msv.skip(done + 1),
                    now_s,
                    days as int,
                )));
            }
        } else {
            proof {
                assert(!is_stale(msv[done], now_s, days as int));
            }
        }
        proof {
            done = done + 1;
        }
    }
    proof {
        assert(msv.skip(done) =~= Seq::<MemV>::empty());
        assert(out@.map_values(|m: Mem| m@) =~= stale_of(
            msv,
            now_s,
            days as int,
        ));
    }
    out
}

} // verus!
