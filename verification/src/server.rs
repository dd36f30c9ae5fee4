//! The Map/Reduce service: the component behind the protocol contract. It
//! resolves the requested function in the registry, executes the map phase
//! over one input unit's content and the reduce phase over collected
//! intermediate pairs, and answers liveness pings, refreshing heartbeats in
//! the wrapped coordinator.
//!
//! Handlers execute independently of the coordinator's task-assignment
//! state, as the protocol describes: task tracking is advisory
//! infrastructure underneath a stateless-per-call execution model, not a
//! scheduling gate.

use vstd::prelude::*;
use vstd::string::*;
use crate::coordinator::{touched, Coordinator, WorkerView};
use crate::functions::{
    assoc_lookup, map_fn_spec, reduce_fn_accepts, reduce_fn_spec, FunctionRegistry, ReduceFn,
};
use crate::protocol::{
    KeyValuePair, MapResponse, PingResponse, ReduceRequest, ReduceResponse, RpcError,
};
use crate::utils::str_eq;

verus! {

/// The distinct keys of a pair sequence, in order of first appearance.
pub open spec fn group_keys(ps: Seq<(Seq<char>, Seq<char>)>) -> Seq<Seq<char>>
    decreases ps.len(),
{
    if ps.len() == 0 {
        seq![]
    } else {
        let rest = group_keys(ps.drop_last());
        if rest.contains(ps.last().0) {
            rest
        } else {
            rest.push(ps.last().0)
        }
    }
}

/// All values carried by pairs with key `k`, in input order.
pub open spec fn values_of(ps: Seq<(Seq<char>, Seq<char>)>, k: Seq<char>) -> Seq<Seq<char>>
    decreases ps.len(),
{
    if ps.len() == 0 {
        seq![]
    } else {
        values_of(ps.drop_last(), k) + if ps.last().0 == k {
            seq![ps.last().1]
        } else {
            seq![]
        }
    }
}

/// One `key:value` entry of the serialized reduce result.
pub open spec fn rendered_entry(
    f: ReduceFn,
    ps: Seq<(Seq<char>, Seq<char>)>,
    k: Seq<char>,
) -> Seq<char> {
    k + ":"@ + reduce_fn_spec(f, k, values_of(ps, k))
}

/// The serialized reduce result over the given keys: `key:value` entries
/// joined by `", "`.
pub open spec fn rendered_results(
    f: ReduceFn,
    ps: Seq<(Seq<char>, Seq<char>)>,
    keys: Seq<Seq<char>>,
) -> Seq<char>
    decreases keys.len(),
{
    if keys.len() == 0 {
        Seq::empty()
    } else if keys.len() == 1 {
        rendered_entry(f, ps, keys.last())
    } else {
        rendered_results(f, ps, keys.drop_last()) + ", "@ + rendered_entry(f, ps, keys.last())
    }
}

/// The distinct keys of a grouping are pairwise distinct.
pub proof fn lemma_group_keys_distinct(ps: Seq<(Seq<char>, Seq<char>)>)
    ensures
        forall|q1: int, q2: int|
            0 <= q1 < q2 < group_keys(ps).len() ==> group_keys(ps)[q1] != group_keys(ps)[q2],
    decreases ps.len(),
{
    if ps.len() > 0 {
        lemma_group_keys_distinct(ps.drop_last());
        let rest = group_keys(ps.drop_last());
        let keys = group_keys(ps);
        if !rest.contains(ps.last().0) {
            assert forall|q1: int, q2: int| 0 <= q1 < q2 < keys.len() implies keys[q1]
                != keys[q2] by {
                if q2 == keys.len() - 1 {
                    assert(keys[q1] == rest[q1]);
                    assert(rest.contains(rest[q1]));
                }
            }
        }
    }
}

/// A key that never appeared among the pairs collected no values.
pub proof fn lemma_values_of_absent(ps: Seq<(Seq<char>, Seq<char>)>, k: Seq<char>)
    requires
        !group_keys(ps).contains(k),
    ensures
        values_of(ps, k) == Seq::<Seq<char>>::empty(),
    decreases ps.len(),
{
    if ps.len() > 0 {
        let rest = group_keys(ps.drop_last());
        assert(!rest.contains(k)) by {
            if rest.contains(k) {
                let q = choose|q: int| 0 <= q < rest.len() && rest[q] == k;
                if rest.contains(ps.last().0) {
                    assert(group_keys(ps)[q] == k);
                } else {
                    assert(group_keys(ps)[q] == k);
                }
            }
        }
        assert(ps.last().0 != k) by {
            if ps.last().0 == k {
                if rest.contains(ps.last().0) {
                } else {
                    assert(group_keys(ps).last() == k);
                }
            }
        }
        lemma_values_of_absent(ps.drop_last(), k);
        assert(values_of(ps, k) =~= Seq::<Seq<char>>::empty());
    }
}

/// Groups pairs by key, keeping first-appearance key order and per-key
/// input order of values.
pub fn group_pairs(pairs: &Vec<KeyValuePair>) -> (r: Vec<(String, Vec<String>)>)
    ensures
        ({
            let pv = pairs@.map_values(|p: KeyValuePair| p@);
            &&& r@.len() == group_keys(pv).len()
            &&& forall|i: int| 0 <= i < r@.len() ==> (#[trigger] r@[i].0)@ == group_keys(pv)[i]
            &&& forall|i: int|
                0 <= i < r@.len() ==> (#[trigger] r@[i].1)@.map_values(|v: String| v@)
                    == values_of(pv, group_keys(pv)[i])
        }),
{
    let ghost pv = pairs@.map_values(|p: KeyValuePair| p@);
    let mut r: Vec<(String, Vec<String>)> = Vec::new();
    let n = pairs.len();
    let mut i: usize = 0;
    proof {
        assert(pv.take(0) =~= Seq::<(Seq<char>, Seq<char>)>::empty());
    }
    while i < n
        invariant
            i <= n,
            n == pv.len(),
            pv == pairs@.map_values(|p: KeyValuePair| p@),
            r@.len() == group_keys(pv.take(i as int)).len(),
            forall|m: int|
                0 <= m < r@.len() ==> (#[trigger] r@[m].0)@ == group_keys(pv.take(i as int))[m],
            forall|m: int|
                0 <= m < r@.len() ==> (#[trigger] r@[m].1)@.map_values(|v: String| v@)
                    == values_of(pv.take(i as int), group_keys(pv.take(i as int))[m]),
        decreases n - i,
    {
        let ghost pre = pv.take(i as int);
        let ghost cur = pv.take(i + 1);
        let ghost keys = group_keys(pre);
        proof {
            assert(cur.drop_last() =~= pre);
            assert(cur.last() == pv[i as int]);
            assert(pv[i as int] == pairs@[i as int]@);
            lemma_group_keys_distinct(pre);
        }
        // Look for an existing group with this key.
        let mut m: usize = 0;
        let gn = r.len();
        while m < gn && !str_eq(r[m].0.as_str(), pairs[i].key.as_str())
            invariant
                m <= gn,
                gn == r@.len(),
                i < n,
                n == pv.len(),
                pv == pairs@.map_values(|p: KeyValuePair| p@),
                forall|q: int| 0 <= q < m ==> (#[trigger] r@[q].0)@ != pairs@[i as int].key@,
            decreases gn - m,
        {
            m += 1;
        }
        let ghost prevr = r@;
        if m < gn {
            // Existing key: append this value to its group.
            proof {
                assert(r@[m as int].0@ == pv[i as int].0);
                assert(keys.contains(pv[i as int].0)) by {
                    assert(r@[m as int].0@ == keys[m as int]);
                }
                assert(group_keys(cur) == keys);
                assert(keys[m as int] == pv[i as int].0);
            }
            let (gkey, mut gvals) = r.remove(m);
            gvals.push(pairs[i].value.clone());
            let ghost grv = gvals@.map_values(|v: String| v@);
            r.insert(m, (gkey, gvals));
            proof {
                prevr.remove_ensures(m as int);
                prevr.remove(m as int).insert_ensures(m as int, (gkey, gvals));
                assert(grv =~= prevr[m as int].1@.map_values(|v: String| v@).push(pv[i as int].1));
                assert(r@.len() == prevr.len());
                assert forall|q: int| 0 <= q < r@.len() implies #[trigger] r@[q] == (if q == m {
                    (prevr[m as int].0, gvals)
                } else {
                    prevr[q]
                }) by {
                    if q < m {
                        assert(r@[q] == prevr.remove(m as int)[q]);
                    } else if q > m {
                        assert(r@[q] == prevr.remove(m as int)[q - 1]);
                    }
                }
                assert forall|q: int| 0 <= q < r@.len() implies (#[trigger] r@[q].0)@ == group_keys(
                    cur,
                )[q] && (#[trigger] r@[q].1)@.map_values(|v: String| v@) == values_of(
                    cur,
                    group_keys(cur)[q],
                ) by {
                    if q == m {
                        assert(values_of(cur, keys[q]) =~= values_of(pre, keys[q]).push(
                            pv[i as int].1,
                        ));
                    } else {
                        assert(keys[q] != pv[i as int].0);
                        assert(values_of(cur, keys[q]) =~= values_of(pre, keys[q]));
                    }
                }
            }
        } else {
            // New key: open a group holding this one value.
            proof {
                assert(!keys.contains(pv[i as int].0)) by {
                    if keys.contains(pv[i as int].0) {
                        let q = choose|q: int| 0 <= q < keys.len() && keys[q] == pv[i as int].0;
                        assert(r@[q].0@ == keys[q]);
                    }
                }
                assert(group_keys(cur) == keys.push(pv[i as int].0));
            }
            let mut vs: Vec<String> = Vec::new();
            vs.push(pairs[i].value.clone());
            let ghost vsv = vs@.map_values(|v: String| v@);
            r.push((pairs[i].key.clone(), vs));
            proof {
                assert(vsv =~= seq![pv[i as int].1]);
                lemma_values_of_absent(pre, pv[i as int].0);
                assert forall|q: int| 0 <= q < r@.len() implies (#[trigger] r@[q].0)@ == group_keys(
                    cur,
                )[q] && (#[trigger] r@[q].1)@.map_values(|v: String| v@) == values_of(
                    cur,
                    group_keys(cur)[q],
                ) by {
                    if q < prevr.len() {
                        assert(r@[q] == prevr[q]);
                        assert(group_keys(cur)[q] == keys[q]);
                        assert(keys.contains(keys[q]));
                        assert(keys[q] != pv[i as int].0);
                        assert(values_of(cur, keys[q]) =~= values_of(pre, keys[q]));
                    } else {
                        assert(group_keys(cur)[q] == pv[i as int].0);
                        assert(values_of(cur, pv[i as int].0) =~= values_of(
                            pre,
                            pv[i as int].0,
                        ).push(pv[i as int].1));
                        assert(values_of(pre, pv[i as int].0).push(pv[i as int].1) =~= seq![
                            pv[i as int].1,
                        ]);
                    }
                }
            }
        }
        i += 1;
    }
    proof {
        assert(pv.take(n as int) =~= pv);
    }
    r
}

/// The RPC-handling component: a coordinator for worker liveness plus the
/// registry the handlers resolve their functions in.
pub struct MapReduceService {
    pub coordinator: Coordinator,
    pub registry: FunctionRegistry,
}

impl MapReduceService {
    /// A service over an empty coordinator and the default registry
    /// bindings (`word_count`, `sum`).
    pub fn new() -> (r: MapReduceService)
        ensures
            r.coordinator@.wf(),
            r.coordinator@.workers == Seq::<WorkerView>::empty(),
            r.coordinator@.tasks == Seq::<crate::coordinator::TaskView>::empty(),
            r.registry.map_entries() == seq![("word_count"@, crate::functions::MapFn::WordCount)],
            r.registry.reduce_entries() == seq![("sum"@, ReduceFn::Sum)],
    {
        MapReduceService { coordinator: Coordinator::new(), registry: FunctionRegistry::new() }
    }

    /// The Map operation, past its input edge: `file_content` is the
    /// outcome of opening and reading the requested file (`None` when it
    /// could not be read). Resolves the named map function and returns the
    /// intermediate pairs it emits for the content.
    pub fn map(&self, file_content: Option<String>, map_function: &str) -> (r: Result<
        MapResponse,
        RpcError,
    >)
        ensures
            file_content is None ==> r == Err::<MapResponse, RpcError>(RpcError::NotFound),
            file_content matches Some(content) ==> (match assoc_lookup(
                self.registry.map_entries(),
                map_function@,
            ) {
                None => r == Err::<MapResponse, RpcError>(RpcError::FunctionNotFound),
                Some(f) => r matches Ok(resp) && resp.intermediate_results@.map_values(
                    |p: KeyValuePair| p@,
                ) == map_fn_spec(f, content@),
            }),
    {
        let content = match file_content {
            None => {
                return Err(RpcError::NotFound);
            },
            Some(content) => content,
        };
        let f = match self.registry.get_map_function(map_function) {
            None => {
                return Err(RpcError::FunctionNotFound);
            },
            Some(f) => f,
        };
        let mut pairs = f.apply(content.as_str());
        let ghost emitted = map_fn_spec(f, content@);
        let mut out: Vec<KeyValuePair> = Vec::new();
        proof {
            assert(out@.map_values(|p: KeyValuePair| p@) + pairs@.map_values(
                |p: (String, String)| (p.0@, p.1@),
            ) =~= emitted);
        }
        while pairs.len() > 0
            invariant
                out@.map_values(|p: KeyValuePair| p@) + pairs@.map_values(
                    |p: (String, String)| (p.0@, p.1@),
                ) == emitted,
            decreases pairs@.len(),
        {
            let ghost po = out@.map_values(|p: KeyValuePair| p@);
            let ghost pp = pairs@.map_values(|p: (String, String)| (p.0@, p.1@));
            let (k, v) = pairs.remove(0);
            out.push(KeyValuePair { key: k, value: v });
            proof {
                assert(out@.map_values(|p: KeyValuePair| p@) =~= po.push(pp[0]));
                assert(pairs@.map_values(|p: (String, String)| (p.0@, p.1@)) =~= pp.skip(1));
                assert(po.push(pp[0]) + pp.skip(1) =~= po + pp);
            }
        }
        proof {
            assert(out@.map_values(|p: KeyValuePair| p@) =~= emitted);
        }
        Ok(MapResponse { intermediate_results: out })
    }

    /// The Reduce operation: resolves the named reduce function, admits the
    /// request only when every value meets that function's parsing
    /// expectations (strict, unlike the lenient default reducer itself),
    /// groups the pairs by key, reduces each group once, and serializes the
    /// outcome as `key:value` entries joined by `", "`.
    pub fn reduce(&self, request: &ReduceRequest) -> (r: Result<ReduceResponse, RpcError>)
        ensures
            ({
                let pv = request.intermediate_results@.map_values(|p: KeyValuePair| p@);
                match assoc_lookup(self.registry.reduce_entries(), request.reduce_function@) {
                    None => r == Err::<ReduceResponse, RpcError>(RpcError::FunctionNotFound),
                    Some(f) => {
                        &&& (forall|i: int|
                            0 <= i < pv.len() ==> reduce_fn_accepts(f, (#[trigger] pv[i]).1))
                            ==> (r matches Ok(resp) && resp.final_result@ == rendered_results(
                            f,
                            pv,
                            group_keys(pv),
                        ))
                        &&& !(forall|i: int|
                            0 <= i < pv.len() ==> reduce_fn_accepts(f, (#[trigger] pv[i]).1))
                            ==> r == Err::<ReduceResponse, RpcError>(RpcError::InvalidArgument)
                    },
                }
            }),
    {
        let ghost pv = request.intermediate_results@.map_values(|p: KeyValuePair| p@);
        let f = match self.registry.get_reduce_function(request.reduce_function.as_str()) {
            None => {
                return Err(RpcError::FunctionNotFound);
            },
            Some(f) => f,
        };
        // Strict admission: every value must satisfy the reduce function's
        // parsing expectations.
        let n = request.intermediate_results.len();
        let mut i: usize = 0;
        while i < n
            invariant
                i <= n,
                n == pv.len(),
                pv == request.intermediate_results@.map_values(|p: KeyValuePair| p@),
                assoc_lookup(self.registry.reduce_entries(), request.reduce_function@) == Some(f),
                forall|q: int| 0 <= q < i ==> reduce_fn_accepts(f, (#[trigger] pv[q]).1),
            decreases n - i,
        {
            if !f.accepts(request.intermediate_results[i].value.as_str()) {
                proof {
                    assert(pv[i as int] == request.intermediate_results@[i as int]@);
                    assert(!reduce_fn_accepts(f, pv[i as int].1));
                    assert(!(forall|q: int|
                        0 <= q < pv.len() ==> reduce_fn_accepts(f, (#[trigger] pv[q]).1)));
                }
                return Err(RpcError::InvalidArgument);
            }
            i += 1;
        }
        let mut groups = group_pairs(&request.intermediate_results);
        let ghost keys = group_keys(pv);
        let total = groups.len();
        let mut out = String::new();
        let mut done: usize = 0;
        proof {
            assert(keys.take(0) =~= Seq::<Seq<char>>::empty());
            assert(out@ =~= rendered_results(f, pv, keys.take(0)));
        }
        while groups.len() > 0
            invariant
                total == keys.len(),
                done + groups@.len() == total,
                pv == request.intermediate_results@.map_values(|p: KeyValuePair| p@),
                keys == group_keys(pv),
                forall|q: int|
                    0 <= q < groups@.len() ==> (#[trigger] groups@[q].0)@ == keys[done + q],
                forall|q: int|
                    0 <= q < groups@.len() ==> (#[trigger] groups@[q].1)@.map_values(
                        |v: String| v@,
                    ) == values_of(pv, keys[done + q]),
                out@ == rendered_results(f, pv, keys.take(done as int)),
            decreases groups@.len(),
        {
            let ghost gprev = groups@;
            let (gkey, gvals) = groups.remove(0);
            proof {
                assert(gprev[0].0@ == keys[done as int]);
                assert forall|q: int| 0 <= q < groups@.len() implies (#[trigger] groups@[q].0)@
                    == keys[done + 1 + q] && (#[trigger] groups@[q].1)@.map_values(|v: String| v@)
                    == values_of(pv, keys[done + 1 + q]) by {
                    assert(groups@[q] == gprev[q + 1]);
                }
            }
            if done > 0 {
                out.append(", ");
            }
            out.append(gkey.as_str());
            out.append(":");
            let reduced = f.apply(gkey.as_str(), gvals);
            out.append(reduced.as_str());
            proof {
                assert(keys.take(done + 1).drop_last() =~= keys.take(done as int));
                assert(keys.take(done + 1).last() == keys[done as int]);
                assert(reduced@ == reduce_fn_spec(f, keys[done as int], values_of(
                    pv,
                    keys[done as int],
                )));
                assert(out@ =~= rendered_results(f, pv, keys.take(done + 1)));
            }
            done += 1;
        }
        proof {
            assert(keys.take(done as int) =~= keys);
        }
        Ok(ReduceResponse { final_result: out })
    }

    /// The Ping operation: answers `"UNKNOWN"` when no worker identity was
    /// supplied (this is not an error), and `"OK"` for any non-empty
    /// identity, recording the identity's heartbeat in the coordinator as a
    /// side effect.
    pub fn ping(&mut self, worker_id: Option<String>, now_ms: u64) -> (r: PingResponse)
        requires
            old(self).coordinator@.wf(),
        ensures
            final(self).coordinator@.wf(),
            final(self).registry == old(self).registry,
            (worker_id is None || (worker_id matches Some(id) && id@.len() == 0)) ==> (
            r.status@ == "UNKNOWN"@ && final(self).coordinator@ == old(self).coordinator@),
            worker_id is Some && worker_id->0@.len() > 0 ==> (r.status@ == "OK"@
                && final(self).coordinator@ == touched(
                old(self).coordinator@,
                worker_id->0@,
                now_ms,
            )),
    {
        match worker_id {
            None => PingResponse { status: "UNKNOWN".to_owned() },
            Some(id) => {
                if id.as_str().is_empty() {
                    PingResponse { status: "UNKNOWN".to_owned() }
                } else {
                    self.coordinator.touch_worker(id.as_str(), now_ms);
                    PingResponse { status: "OK".to_owned() }
                }
            },
        }
    }
}

} // verus!
