//! Client-side job orchestration: the decisions of a multi-file map-reduce
//! job. The driver that owns the transport performs one Map call per input
//! file, hands each result back, and closes with exactly one Reduce call
//! over the full accumulated set — a sequence this state machine enforces
//! by construction, since only a finished map phase gives up the
//! accumulator.

use vstd::prelude::*;
use vstd::string::*;
use crate::protocol::{KeyValuePair, MapRequest, ReduceRequest};

verus! {

/// Whether a path names a `.txt` input: it ends in `.txt` and the dot does
/// not start the file name (so a bare `.txt` has no extension), mirroring
/// how a path's extension is read.
pub open spec fn is_txt_path(p: Seq<char>) -> bool {
    &&& p.len() >= 5
    &&& p.subrange(p.len() - 4, p.len() as int) == ".txt"@
    &&& p[p.len() - 5] != '/'
}

/// Runtime test for [`is_txt_path`].
pub fn is_txt_file(path: &str) -> (r: bool)
    ensures
        r == is_txt_path(path@),
{
    proof {
        reveal_strlit(".txt");
    }
    let n = path.unicode_len();
    if n < 5 {
        return false;
    }
    let r = path.get_char(n - 4) == '.' && path.get_char(n - 3) == 't' && path.get_char(n - 2)
        == 'x' && path.get_char(n - 1) == 't' && path.get_char(n - 5) != '/';
    proof {
        if r {
            assert(path@.subrange(n - 4, n as int) =~= ".txt"@);
        } else {
            if path@.subrange(n - 4, n as int) == ".txt"@ {
                assert(path@[n - 4] == '.' && path@[n - 3] == 't' && path@[n - 2] == 'x'
                    && path@[n - 1] == 't') by {
                    assert(path@.subrange(n - 4, n as int)[0] == path@[n - 4]);
                    assert(path@.subrange(n - 4, n as int)[1] == path@[n - 3]);
                    assert(path@.subrange(n - 4, n as int)[2] == path@[n - 2]);
                    assert(path@.subrange(n - 4, n as int)[3] == path@[n - 1]);
                }
            }
        }
    }
    r
}

/// The `.txt`-named entries of a listing, in order.
pub open spec fn txt_paths(ps: Seq<Seq<char>>) -> Seq<Seq<char>>
    decreases ps.len(),
{
    if ps.len() == 0 {
        Seq::empty()
    } else {
        let rest = txt_paths(ps.drop_last());
        if is_txt_path(ps.last()) {
            rest.push(ps.last())
        } else {
            rest
        }
    }
}

/// Keeps the `.txt`-named entries of a directory listing: the computation
/// behind input discovery, whose directory read itself is the caller's.
pub fn filter_txt_files(paths: Vec<String>) -> (r: Vec<String>)
    ensures
        r@.map_values(|p: String| p@) == txt_paths(paths@.map_values(|p: String| p@)),
{
    let ghost all = paths@.map_values(|p: String| p@);
    let mut r: Vec<String> = Vec::new();
    proof {
        assert(all.take(0) =~= Seq::<Seq<char>>::empty());
        assert(r@.map_values(|p: String| p@) =~= txt_paths(all.take(0)));
    }
    let mut rest = paths;
    let ghost mut consumed: int = 0;
    while rest.len() > 0
        invariant
            0 <= consumed <= all.len(),
            rest@.map_values(|p: String| p@) == all.skip(consumed),
            r@.map_values(|p: String| p@) == txt_paths(all.take(consumed)),
        decreases rest@.len(),
    {
        let ghost pr = rest@;
        let p = rest.remove(0);
        proof {
            assert(0 <= consumed && consumed < all.len()) by {
                assert(pr.len() > 0);
                assert(pr.map_values(|q: String| q@).len() == all.skip(consumed).len());
            }
            assert(pr.map_values(|q: String| q@) =~= all.skip(consumed));
            assert(p@ == all.skip(consumed)[0]);
            assert(all.skip(consumed)[0] == all[0 + consumed]);
            pr.remove_ensures(0);
            assert(pr.map_values(|q: String| q@).len() == pr.len());
            assert(all.skip(consumed).len() == all.len() - consumed);
            assert(pr.map_values(|q: String| q@) == all.skip(consumed));
            assert(pr.len() == all.len() - consumed);
            assert(rest@.len() == pr.len() - 1);
            assert(all.skip(consumed + 1).len() == all.len() - consumed - 1);
            assert forall|q: int|
                0 <= q < rest@.len() implies (#[trigger] rest@[q])@ == all.skip(
                consumed + 1,
            )[q] by {
                assert(rest@[q] == pr.remove(0)[q]);
                assert(pr.remove(0)[q] == pr[q + 1]);
                assert(pr[q + 1]@ == all.skip(consumed)[q + 1]);
                assert(all.skip(consumed)[q + 1] == all[consumed + 1 + q]);
                assert(all.skip(consumed + 1)[q] == all[consumed + 1 + q]);
            }
            assert(rest@.map_values(|q: String| q@) =~= all.skip(consumed + 1));
            assert(all.take(consumed + 1).drop_last() =~= all.take(consumed));
            assert(all.take(consumed + 1).last() == all[consumed]);
        }
        let ghost prevr = r@.map_values(|q: String| q@);
        if is_txt_file(p.as_str()) {
            r.push(p);
            proof {
                assert(r@.map_values(|q: String| q@) =~= prevr.push(all[consumed]));
            }
        }
        proof {
            consumed = consumed + 1;
        }
    }
    proof {
        assert(all.take(consumed) =~= all);
    }
    r
}

/// A running job: the input files, how far the map phase has come, the
/// function names, and the accumulated intermediate pairs.
pub struct JobRun {
    files: Vec<String>,
    next_file: usize,
    map_function: String,
    reduce_function: String,
    accumulated: Vec<KeyValuePair>,
}

impl JobRun {
    /// The input files, in the order their Map calls are issued.
    pub closed spec fn files_view(self) -> Seq<Seq<char>> {
        self.files@.map_values(|f: String| f@)
    }

    /// How many files the map phase has completed.
    pub closed spec fn progress(self) -> int {
        self.next_file as int
    }

    pub closed spec fn map_function_view(self) -> Seq<char> {
        self.map_function@
    }

    pub closed spec fn reduce_function_view(self) -> Seq<char> {
        self.reduce_function@
    }

    /// Every intermediate pair received so far, in arrival order.
    pub closed spec fn accumulated_view(self) -> Seq<(Seq<char>, Seq<char>)> {
        self.accumulated@.map_values(|p: KeyValuePair| p@)
    }

    pub open spec fn wf(self) -> bool {
        0 <= self.progress() <= self.files_view().len()
    }

    /// Whether every input file has had its Map call answered.
    pub open spec fn map_phase_done(self) -> bool {
        self.progress() == self.files_view().len()
    }

    /// Starts a job over the given files with an empty accumulator.
    pub fn new(files: Vec<String>, map_function: String, reduce_function: String) -> (r: JobRun)
        ensures
            r.wf(),
            r.files_view() == files@.map_values(|f: String| f@),
            r.progress() == 0,
            r.map_function_view() == map_function@,
            r.reduce_function_view() == reduce_function@,
            r.accumulated_view() == Seq::<(Seq<char>, Seq<char>)>::empty(),
    {
        let r = JobRun {
            files,
            next_file: 0,
            map_function,
            reduce_function,
            accumulated: Vec::new(),
        };
        proof {
            assert(r.accumulated_view() =~= Seq::<(Seq<char>, Seq<char>)>::empty());
        }
        r
    }

    /// Runtime test for [`JobRun::map_phase_done`].
    pub fn is_map_phase_done(&self) -> (r: bool)
        requires
            self.wf(),
        ensures
            r == self.map_phase_done(),
    {
        self.next_file == self.files.len()
    }

    /// The Map request for the next unprocessed file.
    pub fn next_map_request(&self) -> (r: MapRequest)
        requires
            self.wf(),
            !self.map_phase_done(),
        ensures
            r.file_path@ == self.files_view()[self.progress()],
            r.map_function@ == self.map_function_view(),
    {
        MapRequest {
            file_path: self.files[self.next_file].clone(),
            map_function: self.map_function.clone(),
        }
    }

    /// Records the intermediate results of the next file's Map call: they
    /// are appended to the accumulator, in order, and the map phase
    /// advances by one file.
    pub fn record_map_results(&mut self, pairs: Vec<KeyValuePair>)
        requires
            old(self).wf(),
            !old(self).map_phase_done(),
        ensures
            final(self).wf(),
            final(self).files_view() == old(self).files_view(),
            final(self).map_function_view() == old(self).map_function_view(),
            final(self).reduce_function_view() == old(self).reduce_function_view(),
            final(self).progress() == old(self).progress() + 1,
            final(self).accumulated_view() == old(self).accumulated_view() + pairs@.map_values(
                |p: KeyValuePair| p@,
            ),
    {
        let ghost prev = self.accumulated_view();
        let ghost incoming = pairs@.map_values(|p: KeyValuePair| p@);
        let mut rest = pairs;
        let ghost mut got: int = 0;
        while rest.len() > 0
            invariant
                0 <= got <= incoming.len(),
                rest@.map_values(|p: KeyValuePair| p@) == incoming.skip(got),
                self.accumulated_view() == prev + incoming.take(got),
                self.files_view() == old(self).files_view(),
                self.next_file == old(self).next_file,
                self.map_function_view() == old(self).map_function_view(),
                self.reduce_function_view() == old(self).reduce_function_view(),
                old(self).wf(),
                !old(self).map_phase_done(),
            decreases rest@.len(),
        {
            let ghost pr = rest@;
            let ghost pacc = self.accumulated_view();
            let p = rest.remove(0);
            self.accumulated.push(p);
            proof {
                pr.remove_ensures(0);
                assert(0 <= got && got < incoming.len()) by {
                    assert(pr.len() > 0);
                    assert(pr.map_values(|p: KeyValuePair| p@).len() == incoming.skip(got).len());
                }
                assert(pr.map_values(|p: KeyValuePair| p@) =~= incoming.skip(got));
                assert(pr[0]@ == incoming.skip(got)[0]);
                assert(incoming.skip(got)[0] == incoming[0 + got]);
                assert(incoming.take(got + 1) =~= incoming.take(got).push(incoming[got]));
                assert(self.accumulated_view() =~= pacc.push(incoming[got]));
                assert(prev + incoming.take(got + 1) =~= (prev + incoming.take(got)).push(
                    incoming[got],
                ));
                assert(pr.map_values(|p: KeyValuePair| p@).len() == pr.len());
                assert(incoming.skip(got).len() == incoming.len() - got);
                assert(pr.map_values(|p: KeyValuePair| p@) == incoming.skip(got));
                assert(pr.len() == incoming.len() - got);
                assert(rest@.len() == pr.len() - 1);
                assert(incoming.skip(got + 1).len() == incoming.len() - got - 1);
                assert forall|q: int|
                    0 <= q < rest@.len() implies (#[trigger] rest@[q])@ == incoming.skip(
                    got + 1,
                )[q] by {
                    assert(rest@[q] == pr.remove(0)[q]);
                    assert(pr.remove(0)[q] == pr[q + 1]);
                    assert(pr[q + 1]@ == incoming.skip(got)[q + 1]);
                    assert(incoming.skip(got)[q + 1] == incoming[got + 1 + q]);
                    assert(incoming.skip(got + 1)[q] == incoming[got + 1 + q]);
                }
                assert(rest@.map_values(|p: KeyValuePair| p@) =~= incoming.skip(got + 1));
                got = got + 1;
            }
        }
        let flen = self.files.len();
        proof {
            assert(self.next_file < flen);
        }
        self.next_file = self.next_file + 1;
        proof {
            assert(incoming.take(got) =~= incoming);
        }
    }

    /// Closes the map phase: consumes the job and hands out the one Reduce
    /// request over the complete accumulated set. Taking the job by value
    /// is what makes the Reduce call unique: no further Map result can be
    /// recorded and no second accumulator can be obtained.
    pub fn into_reduce_request(self) -> (r: ReduceRequest)
        requires
            self.wf(),
            self.map_phase_done(),
        ensures
            r.intermediate_results@.map_values(|p: KeyValuePair| p@) == self.accumulated_view(),
            r.reduce_function@ == self.reduce_function_view(),
    {
        ReduceRequest {
            intermediate_results: self.accumulated,
            reduce_function: self.reduce_function,
        }
    }
}

} // verus!
