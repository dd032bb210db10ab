//! Properties of whole traversals, stated over the step function and proved.
use vstd::prelude::*;
use crate::bytes::join_spec;
use crate::inspect::inspect_spec;
use crate::resolver::{
    accepts, candidate, fresh, model_wf, request_of, search_dirs_spec, settle, step, visited,
    FailureModel, FrameModel, Model, PhaseModel, RequestModel,
};

verus! {

/// What a file system holding the files of `w` answers for path `p`.
pub open spec fn answer(w: Map<Seq<u8>, Seq<u8>>, p: Seq<u8>) -> Option<Seq<u8>> {
    if w.contains_key(p) {
        Some(w[p])
    } else {
        None
    }
}

/// The state after `k` requests have been answered from `w`, stopping once finished.
pub open spec fn advance(m: Model, w: Map<Seq<u8>, Seq<u8>>, k: nat) -> Model
    decreases k,
{
    if k == 0 {
        m
    } else {
        match request_of(m) {
            RequestModel::Inspect(p) => advance(step(m, answer(w, p)), w, (k - 1) as nat),
            RequestModel::Probe(p) => advance(step(m, answer(w, p)), w, (k - 1) as nat),
            RequestModel::Finished(_) => m,
        }
    }
}

/// The result of a traversal after `k` answers from `w`, if it has finished by then.
pub open spec fn outcome(m: Model, w: Map<Seq<u8>, Seq<u8>>, k: nat) -> Option<
    Result<Seq<Seq<u8>>, FailureModel>,
> {
    match request_of(advance(m, w, k)) {
        RequestModel::Finished(o) => Some(o),
        _ => None,
    }
}

/// An object that needs no library resolves, from a fresh start, to the empty list,
/// and the only visited path is the object itself.
pub proof fn lemma_no_dependencies(start: Seq<u8>, env: Seq<Seq<u8>>, b: Seq<u8>)
    requires
        inspect_spec(b) is Ok,
        inspect_spec(b)->Ok_0.1.len() == 0,
    ensures
        request_of(step(fresh(start, env), Some(b))) == RequestModel::Finished(
            Ok(Seq::<Seq<u8>>::empty()),
        ),
        visited(step(fresh(start, env), Some(b))) == seq![start],
{
    let m = fresh(start, env);
    let pushed = match inspect_spec(b) {
        Ok((w, n, h)) => Model {
            frames: m.frames.push(
                crate::resolver::FrameModel {
                    word_size: w,
                    needed: n,
                    dirs: crate::resolver::search_dirs_spec(env, h),
                    next_dep: 0,
                    next_dir: 0,
                },
            ),
            ..m
        },
        Err(_) => m,
    };
    assert(step(m, Some(b)) == settle(pushed));
    assert(pushed.frames.drop_last() =~= Seq::empty());
    assert(settle(pushed) == settle(Model { frames: pushed.frames.drop_last(), ..pushed }));
    assert(visited(m) =~= seq![start]);
}

/// In every reachable state no path is listed twice, and the starting object is
/// never among the results; so a finished list is duplicate-free and, on a cycle
/// back to the start, does not hold the start.
pub proof fn lemma_results_unique(m: Model)
    requires
        model_wf(m),
    ensures
        m.results.no_duplicates(),
        !m.results.contains(m.start),
        request_of(m) matches RequestModel::Finished(Ok(list)) ==> list.no_duplicates()
            && !list.contains(m.start),
{
    let v = visited(m);
    assert forall|i: int, j: int| 0 <= i < j < m.results.len() implies m.results[i] != m.results[j] by {
        assert(v[i + 1] == m.results[i] && v[j + 1] == m.results[j]);
    }
    if m.results.contains(m.start) {
        let k = choose|k: int| 0 <= k < m.results.len() && m.results[k] == m.start;
        assert(v[k + 1] == v[0]);
    }
}

/// A candidate whose bytes are not an object of the requester's word size is
/// skipped, and the next search directory is probed.
pub proof fn lemma_mismatch_skips(m: Model, data: Option<Seq<u8>>)
    requires
        model_wf(m),
        m.phase is Probing,
        !accepts(data, m.frames.last().word_size),
        m.frames.last().next_dir + 1 < m.frames.last().dirs.len(),
    ensures
        ({
            let f = m.frames.last();
            request_of(step(m, data)) == RequestModel::Probe(
                join_spec(f.dirs[f.next_dir + 1], f.needed[f.next_dep]),
            )
        }),
        step(m, data).results == m.results,
{
}

/// Answers that reject every remaining directory of the current library.
pub open spec fn rejects_from(m: Model, w: Map<Seq<u8>, Seq<u8>>, from: int, to: int) -> bool {
    let f = m.frames.last();
    forall|j: int|
        from <= j < to ==> !accepts(
            #[trigger] answer(w, join_spec(f.dirs[j], f.needed[f.next_dep])),
            f.word_size,
        )
}

/// One rejected probe moves to the next directory, or fails on the last one.
proof fn lemma_reject_step(m: Model, w: Map<Seq<u8>, Seq<u8>>)
    requires
        model_wf(m),
        m.phase is Probing,
        !accepts(answer(w, crate::resolver::candidate(m.frames.last())), m.frames.last().word_size),
    ensures
        ({
            let f = m.frames.last();
            let m2 = step(m, answer(w, crate::resolver::candidate(f)));
            &&& m2.results == m.results
            &&& m2.start == m.start
            &&& if f.next_dir + 1 < f.dirs.len() {
                &&& model_wf(m2)
                &&& m2.phase is Probing
                &&& m2.frames.len() == m.frames.len()
                &&& m2.frames.last() == (crate::resolver::FrameModel { next_dir: f.next_dir + 1, ..f })
            } else {
                m2.phase == PhaseModel::Failed(FailureModel::NotFound(f.needed[f.next_dep]))
            }
        }),
{
    let f = m.frames.last();
    let m1 = Model {
        frames: m.frames.update(m.frames.len() - 1, crate::resolver::FrameModel { next_dir: f.next_dir + 1, ..f }),
        ..m
    };
    assert(m1.frames.last() == (crate::resolver::FrameModel { next_dir: f.next_dir + 1, ..f }));
    assert forall|i: int| 0 <= i < m1.frames.len() implies 0 <= #[trigger] m1.frames[i].next_dep
        <= m1.frames[i].needed.len() && 0 <= m1.frames[i].next_dir <= m1.frames[i].dirs.len() by {
        if i < m.frames.len() - 1 {
            assert(m1.frames[i] == m.frames[i]);
        }
    }
    assert(visited(m1) == visited(m));
}

/// A library found in no search directory with the right word size ends the whole
/// traversal in failure, naming that library; no partial list is produced.
pub proof fn lemma_not_found(m: Model, w: Map<Seq<u8>, Seq<u8>>)
    requires
        model_wf(m),
        m.phase is Probing,
        rejects_from(m, w, m.frames.last().next_dir, m.frames.last().dirs.len() as int),
    ensures
        ({
            let f = m.frames.last();
            let k = (f.dirs.len() - f.next_dir) as nat;
            request_of(advance(m, w, k)) == RequestModel::Finished(
                Err::<Seq<Seq<u8>>, _>(FailureModel::NotFound(f.needed[f.next_dep])),
            )
        }),
    decreases m.frames.last().dirs.len() - m.frames.last().next_dir,
{
    let f = m.frames.last();
    let c = crate::resolver::candidate(f);
    assert(!accepts(answer(w, join_spec(f.dirs[f.next_dir], f.needed[f.next_dep])), f.word_size));
    lemma_reject_step(m, w);
    let m2 = step(m, answer(w, c));
    let k = (f.dirs.len() - f.next_dir) as nat;
    assert(advance(m, w, k) == advance(m2, w, (k - 1) as nat));
    if f.next_dir + 1 < f.dirs.len() {
        let f2 = m2.frames.last();
        assert forall|j: int| f2.next_dir <= j < f2.dirs.len() implies !accepts(
            #[trigger] answer(w, join_spec(f2.dirs[j], f2.needed[f2.next_dep])),
            f2.word_size,
        ) by {
            assert(!accepts(answer(w, join_spec(f.dirs[j], f.needed[f.next_dep])), f.word_size));
        }
        lemma_not_found(m2, w);
    } else {
        assert(advance(m2, w, 0) == m2);
    }
}

/// The first search directory, in search order, whose entry for the library is an
/// object of the right word size is the one chosen: the path resolved is that
/// directory joined with the name, whatever later directories hold.
pub proof fn lemma_first_match(m: Model, w: Map<Seq<u8>, Seq<u8>>, i: int)
    requires
        model_wf(m),
        m.phase is Probing,
        m.frames.last().next_dir <= i < m.frames.last().dirs.len(),
        rejects_from(m, w, m.frames.last().next_dir, i),
        accepts(
            answer(w, join_spec(m.frames.last().dirs[i], m.frames.last().needed[m.frames.last().next_dep])),
            m.frames.last().word_size,
        ),
    ensures
        ({
            let f = m.frames.last();
            let c = join_spec(f.dirs[i], f.needed[f.next_dep]);
            let m2 = advance(m, w, (i - f.next_dir + 1) as nat);
            &&& visited(m2).contains(c)
            &&& m2.results == if visited(m).contains(c) {
                m.results
            } else {
                m.results.push(c)
            }
        }),
    decreases i - m.frames.last().next_dir,
{
    let f = m.frames.last();
    let c = crate::resolver::candidate(f);
    let k = (i - f.next_dir + 1) as nat;
    let m2 = step(m, answer(w, c));
    assert(advance(m, w, k) == advance(m2, w, (k - 1) as nat));
    if f.next_dir < i {
        assert(!accepts(answer(w, join_spec(f.dirs[f.next_dir], f.needed[f.next_dep])), f.word_size));
        lemma_reject_step(m, w);
        let f2 = m2.frames.last();
        assert forall|j: int| f2.next_dir <= j < i implies !accepts(
            #[trigger] answer(w, join_spec(f2.dirs[j], f2.needed[f2.next_dep])),
            f2.word_size,
        ) by {
            assert(!accepts(answer(w, join_spec(f.dirs[j], f.needed[f.next_dep])), f.word_size));
        }
        assert(visited(m2) == visited(m));
        lemma_first_match(m2, w, i);
    } else {
        assert(advance(m2, w, 0) == m2);
        let frames = m.frames.update(
            m.frames.len() - 1,
            crate::resolver::FrameModel { next_dep: f.next_dep + 1, next_dir: 0, ..f },
        );
        if visited(m).contains(c) {
            lemma_settle_keeps(Model { frames, ..m });
        } else {
            assert(visited(m2) =~= visited(m).push(c));
            assert(visited(m2)[visited(m2).len() - 1] == c);
        }
    }
}

/// `settle` leaves the start and the results alone.
proof fn lemma_settle_keeps(m: Model)
    ensures
        settle(m).start == m.start,
        settle(m).results == m.results,
    decreases m.frames.len(),
{
    if m.frames.len() > 0 && m.frames.last().next_dep >= m.frames.last().needed.len() {
        lemma_settle_keeps(Model { frames: m.frames.drop_last(), ..m });
    }
}

/// Answering from an unchanging file system, a finished traversal stays finished
/// with the same result however many more answers are offered: two runs over the
/// same files give the same ordered list, or the same failure.
pub proof fn lemma_run_deterministic(m: Model, w: Map<Seq<u8>, Seq<u8>>, k1: nat, k2: nat)
    requires
        outcome(m, w, k1) is Some,
        k1 <= k2,
    ensures
        outcome(m, w, k2) == outcome(m, w, k1),
    decreases k1,
{
    if request_of(m) is Finished {
        lemma_finished_stays(m, w, k1);
        lemma_finished_stays(m, w, k2);
    } else {
        assert(k1 > 0) by {
            if k1 == 0 {
                assert(advance(m, w, 0) == m);
            }
        }
        let p = match request_of(m) {
            RequestModel::Inspect(p) => p,
            RequestModel::Probe(p) => p,
            RequestModel::Finished(_) => Seq::empty(),
        };
        let m2 = step(m, answer(w, p));
        assert(advance(m, w, k1) == advance(m2, w, (k1 - 1) as nat));
        assert(advance(m, w, k2) == advance(m2, w, (k2 - 1) as nat));
        lemma_run_deterministic(m2, w, (k1 - 1) as nat, (k2 - 1) as nat);
    }
}

/// A finished state no longer moves.
proof fn lemma_finished_stays(m: Model, w: Map<Seq<u8>, Seq<u8>>, k: nat)
    requires
        request_of(m) is Finished,
    ensures
        advance(m, w, k) == m,
{
}

/// Probes still possible in one frame: a full pass over the directories for each
/// library not yet resolved, less those already made for the current one.
pub open spec fn frame_work(f: FrameModel) -> int {
    if f.next_dep >= f.needed.len() {
        0
    } else {
        (f.needed.len() - f.next_dep) * (f.dirs.len() + 1) - f.next_dir
    }
}

/// Probes still possible in all frames.
pub open spec fn work(frames: Seq<FrameModel>) -> int
    decreases frames.len(),
{
    if frames.len() == 0 {
        0
    } else {
        work(frames.drop_last()) + frame_work(frames.last())
    }
}

/// Files of `w` not yet visited, counted twice, plus one while an inspection is pending.
pub open spec fn rank(m: Model, w: Map<Seq<u8>, Seq<u8>>) -> int {
    2 * w.dom().difference(visited(m).to_set()).len() + if m.phase is Inspecting {
        1int
    } else {
        0int
    }
}

/// The frames' cursors are in range.
pub open spec fn cursors_ok(frames: Seq<FrameModel>) -> bool {
    forall|i: int|
        0 <= i < frames.len() ==> 0 <= #[trigger] frames[i].next_dep <= frames[i].needed.len()
            && 0 <= frames[i].next_dir <= frames[i].dirs.len()
}

proof fn lemma_frame_work_nonneg(f: FrameModel)
    requires
        0 <= f.next_dep <= f.needed.len(),
        0 <= f.next_dir <= f.dirs.len(),
    ensures
        frame_work(f) >= 0,
        f.next_dep < f.needed.len() ==> frame_work(f) >= f.dirs.len() + 1 - f.next_dir,
{
    if f.next_dep < f.needed.len() {
        let d = f.needed.len() - f.next_dep;
        let n = f.dirs.len() + 1;
        assert(d * n >= n) by (nonlinear_arith)
            requires
                d >= 1,
                n >= 1,
        ;
    }
}

proof fn lemma_work_nonneg(frames: Seq<FrameModel>)
    requires
        cursors_ok(frames),
    ensures
        work(frames) >= 0,
    decreases frames.len(),
{
    if frames.len() > 0 {
        assert(cursors_ok(frames.drop_last())) by {
            assert forall|i: int| 0 <= i < frames.drop_last().len() implies 0
                <= #[trigger] frames.drop_last()[i].next_dep <= frames.drop_last()[i].needed.len()
                && 0 <= frames.drop_last()[i].next_dir <= frames.drop_last()[i].dirs.len() by {
                assert(frames.drop_last()[i] == frames[i]);
            }
        }
        lemma_work_nonneg(frames.drop_last());
        lemma_frame_work_nonneg(frames[frames.len() - 1]);
    }
}

/// `settle` removes no work it should not, leaves results alone, and never leaves an
/// inspection pending.
proof fn lemma_settle_work(m: Model)
    requires
        cursors_ok(m.frames),
    ensures
        work(settle(m).frames) == work(m.frames),
        settle(m).results == m.results,
        settle(m).start == m.start,
        !(settle(m).phase is Inspecting),
    decreases m.frames.len(),
{
    if m.frames.len() > 0 && m.frames.last().next_dep >= m.frames.last().needed.len() {
        let m2 = Model { frames: m.frames.drop_last(), ..m };
        assert(cursors_ok(m2.frames)) by {
            assert forall|i: int| 0 <= i < m2.frames.len() implies 0 <= #[trigger] m2.frames[i].next_dep
                <= m2.frames[i].needed.len() && 0 <= m2.frames[i].next_dir
                <= m2.frames[i].dirs.len() by {
                assert(m2.frames[i] == m.frames[i]);
            }
        }
        lemma_settle_work(m2);
    }
}

/// Replacing the last frame changes the work by the difference of the two frames.
proof fn lemma_work_update_last(frames: Seq<FrameModel>, f: FrameModel)
    requires
        frames.len() > 0,
    ensures
        work(frames.update(frames.len() - 1, f)) == work(frames) - frame_work(frames.last())
            + frame_work(f),
{
    let u = frames.update(frames.len() - 1, f);
    assert(u.drop_last() =~= frames.drop_last());
}

/// The request pending in a state that has not finished.
pub open spec fn pending_path(m: Model) -> Seq<u8> {
    match request_of(m) {
        RequestModel::Inspect(p) => p,
        RequestModel::Probe(p) => p,
        RequestModel::Finished(_) => Seq::empty(),
    }
}

/// Each answered request either finishes the traversal, visits a new file of `w`,
/// gets an inspection done, or uses up a probe: the rank falls, or stays while the
/// work falls.
proof fn lemma_step_progress(m: Model, w: Map<Seq<u8>, Seq<u8>>)
    requires
        model_wf(m),
        w.dom().finite(),
        !(request_of(m) is Finished),
    ensures
        ({
            let m2 = step(m, answer(w, pending_path(m)));
            &&& model_wf(m2)
            &&& request_of(m2) is Finished || rank(m2, w) < rank(m, w) || (rank(m2, w) == rank(m, w)
                && work(m2.frames) < work(m.frames))
        }),
{
    let data = answer(w, pending_path(m));
    let m2 = step(m, data);
    let dv = w.dom().difference(visited(m).to_set());
    vstd::set_lib::lemma_set_subset_finite(w.dom(), dv);
    assert(dv.subset_of(w.dom()));
    if m.phase is Inspecting {
        match data {
            None => {},
            Some(b) => match inspect_spec(b) {
                Err(_) => {},
                Ok((ws, n, h)) => {
                    let pushed = Model {
                        frames: m.frames.push(
                            FrameModel {
                                word_size: ws,
                                needed: n,
                                dirs: search_dirs_spec(m.env, h),
                                next_dep: 0,
                                next_dir: 0,
                            },
                        ),
                        ..m
                    };
                    assert(cursors_ok(pushed.frames)) by {
                        assert forall|i: int| 0 <= i < pushed.frames.len() implies 0
                            <= #[trigger] pushed.frames[i].next_dep <= pushed.frames[i].needed.len()
                            && 0 <= pushed.frames[i].next_dir <= pushed.frames[i].dirs.len() by {
                            if i < m.frames.len() {
                                assert(pushed.frames[i] == m.frames[i]);
                            }
                        }
                    }
                    assert(visited(pushed) == visited(m));
                    crate::resolver::lemma_settle_wf(pushed);
                    lemma_settle_work(pushed);
                    assert(visited(m2) == visited(m));
                },
            },
        }
    } else {
        let f = m.frames.last();
        let last = m.frames.len() - 1;
        let c = candidate(f);
        lemma_frame_work_nonneg(f);
        if accepts(data, f.word_size) {
            let f2 = FrameModel { next_dep: f.next_dep + 1, next_dir: 0, ..f };
            let frames = m.frames.update(last, f2);
            let m1 = Model { frames, ..m };
            assert(cursors_ok(frames)) by {
                assert forall|i: int| 0 <= i < frames.len() implies 0 <= #[trigger] frames[i].next_dep
                    <= frames[i].needed.len() && 0 <= frames[i].next_dir <= frames[i].dirs.len() by {
                    if i < last {
                        assert(frames[i] == m.frames[i]);
                    }
                }
            }
            if visited(m).contains(c) {
                assert(visited(m1) == visited(m));
                crate::resolver::lemma_settle_wf(m1);
                lemma_settle_work(m1);
                lemma_work_update_last(m.frames, f2);
                let d = f.needed.len() - f.next_dep;
                let n = f.dirs.len() + 1;
                assert(d * n == (d - 1) * n + n) by (nonlinear_arith);
                assert(visited(m2) == visited(m));
            } else {
                assert(w.dom().contains(c));
                assert(visited(m2) =~= visited(m).push(c));
                visited(m).lemma_push_to_set_commute(c);
                let dv2 = w.dom().difference(visited(m2).to_set());
                assert(dv2 =~= dv.remove(c));
                assert(dv.contains(c));
                assert(visited(m2).no_duplicates()) by {
                    assert forall|i: int, j: int| 0 <= i < j < visited(m2).len() implies visited(m2)[i]
                        != visited(m2)[j] by {
                        if j == visited(m2).len() - 1 {
                            assert(visited(m)[i] == visited(m2)[i]);
                        } else {
                            assert(visited(m)[i] == visited(m2)[i] && visited(m)[j] == visited(m2)[j]);
                        }
                    }
                }
                assert forall|i: int| 0 <= i < m2.frames.len() implies 0 <= #[trigger] m2.frames[i].next_dep
                    <= m2.frames[i].needed.len() && 0 <= m2.frames[i].next_dir
                    <= m2.frames[i].dirs.len() by {
                    assert(m2.frames[i] == frames[i]);
                }
            }
        } else {
            let f2 = FrameModel { next_dir: f.next_dir + 1, ..f };
            let frames = m.frames.update(last, f2);
            let m1 = Model { frames, ..m };
            assert(cursors_ok(frames)) by {
                assert forall|i: int| 0 <= i < frames.len() implies 0 <= #[trigger] frames[i].next_dep
                    <= frames[i].needed.len() && 0 <= frames[i].next_dir <= frames[i].dirs.len() by {
                    if i < last {
                        assert(frames[i] == m.frames[i]);
                    }
                }
            }
            assert(visited(m1) == visited(m));
            crate::resolver::lemma_settle_wf(m1);
            lemma_settle_work(m1);
            lemma_work_update_last(m.frames, f2);
            assert(visited(m2) == visited(m));
        }
    }
}

/// Over a finite file system every traversal finishes, cycles included: some number
/// of answers brings it to a result or a failure.
pub proof fn lemma_terminates(m: Model, w: Map<Seq<u8>, Seq<u8>>)
    requires
        model_wf(m),
        w.dom().finite(),
    ensures
        exists|k: nat| (#[trigger] outcome(m, w, k)) is Some,
    decreases rank(m, w), work(m.frames),
{
    if request_of(m) is Finished {
        assert(outcome(m, w, 0) is Some);
    } else {
        let m2 = step(m, answer(w, pending_path(m)));
        lemma_step_progress(m, w);
        lemma_work_nonneg(m.frames);
        lemma_work_nonneg(m2.frames);
        if request_of(m2) is Finished {
            assert(advance(m2, w, 0) == m2);
            assert(outcome(m, w, 1) is Some);
        } else {
            lemma_terminates(m2, w);
            let k = choose|k: nat| (#[trigger] outcome(m2, w, k)) is Some;
            assert(advance(m, w, k + 1) == advance(m2, w, k));
            assert(outcome(m, w, k + 1) is Some);
        }
    }
}

} // verus!
