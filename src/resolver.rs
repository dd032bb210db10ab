//! Dependency resolution as a state machine. The machine asks for the bytes of one
//! file at a time (`Request`), and the caller answers through `Resolver::feed`;
//! every decision (search order, word-size check, deduplication, failure) is made here.
use vstd::prelude::*;
use vstd::string::StringSliceAdditionalSpecFns;
use crate::bytes::{bytes_eq, contains_bytes, copy_all, copy_bytes, join_path, join_spec, views};
use crate::inspect::{classify, classify_spec, inspect, inspect_spec, InspectError, WordSize};

verus! {

/// One object file whose dependencies are being resolved.
pub struct FrameModel {
    pub word_size: WordSize,
    pub needed: Seq<Seq<u8>>,
    pub dirs: Seq<Seq<u8>>,
    pub next_dep: int,
    pub next_dir: int,
}

/// Why resolution failed.
pub enum FailureModel {
    Unreadable(Seq<u8>),
    Undecodable(Seq<u8>, InspectError),
    NotFound(Seq<u8>),
}

/// Where the traversal stands.
pub enum PhaseModel {
    /// Waiting for the bytes of the last visited path, to decode it.
    Inspecting,
    /// Waiting for the bytes of the top frame's current candidate.
    Probing,
    Failed(FailureModel),
    Complete,
}

/// The whole state of a traversal.
pub struct Model {
    pub start: Seq<u8>,
    pub env: Seq<Seq<u8>>,
    pub results: Seq<Seq<u8>>,
    pub frames: Seq<FrameModel>,
    pub phase: PhaseModel,
}

/// What the machine asks of its caller.
pub enum RequestModel {
    Inspect(Seq<u8>),
    Probe(Seq<u8>),
    Finished(Result<Seq<Seq<u8>>, FailureModel>),
}

/// The standard library directories, searched first and in this order.
pub open spec fn standard_dirs() -> Seq<Seq<u8>> {
    seq![
        "/usr/lib".spec_bytes(),
        "/lib64".spec_bytes(),
        "/lib/x86_64-linux-gnu".spec_bytes(),
        "/lib".spec_bytes(),
        "/usr/lib64".spec_bytes(),
    ]
}

/// The directories searched for one object's dependencies: the standard ones, then
/// those of the environment, then the object's own embedded ones.
pub open spec fn search_dirs_spec(env: Seq<Seq<u8>>, hints: Seq<Seq<u8>>) -> Seq<Seq<u8>> {
    standard_dirs() + env + hints
}

/// Paths already resolved or being resolved: the start path, then the results.
pub open spec fn visited(m: Model) -> Seq<Seq<u8>> {
    seq![m.start] + m.results
}

/// The path that a frame probes next.
pub open spec fn candidate(f: FrameModel) -> Seq<u8> {
    join_spec(f.dirs[f.next_dir], f.needed[f.next_dep])
}

/// Drops finished frames and decides what comes next: done, a missing library, or a probe.
pub open spec fn settle(m: Model) -> Model
    decreases m.frames.len(),
{
    if m.frames.len() == 0 {
        Model { phase: PhaseModel::Complete, ..m }
    } else {
        let f = m.frames.last();
        if f.next_dep >= f.needed.len() {
            settle(Model { frames: m.frames.drop_last(), ..m })
        } else if f.next_dir >= f.dirs.len() {
            Model { phase: PhaseModel::Failed(FailureModel::NotFound(f.needed[f.next_dep])), ..m }
        } else {
            Model { phase: PhaseModel::Probing, ..m }
        }
    }
}

/// Whether the bytes given for a probe are an object of the wanted word size.
pub open spec fn accepts(data: Option<Seq<u8>>, w: WordSize) -> bool {
    match data {
        Some(b) => classify_spec(b) == Some(w),
        None => false,
    }
}

/// The state after the caller answers the pending request with `data`
/// (`None`: the file could not be read).
pub open spec fn step(m: Model, data: Option<Seq<u8>>) -> Model {
    match m.phase {
        PhaseModel::Inspecting => {
            let path = visited(m).last();
            match data {
                None => Model { phase: PhaseModel::Failed(FailureModel::Unreadable(path)), ..m },
                Some(b) => match inspect_spec(b) {
                    Err(e) => Model {
                        phase: PhaseModel::Failed(FailureModel::Undecodable(path, e)),
                        ..m
                    },
                    Ok((w, n, h)) => settle(
                        Model {
                            frames: m.frames.push(
                                FrameModel {
                                    word_size: w,
                                    needed: n,
                                    dirs: search_dirs_spec(m.env, h),
                                    next_dep: 0,
                                    next_dir: 0,
                                },
                            ),
                            ..m
                        },
                    ),
                },
            }
        },
        PhaseModel::Probing => {
            let f = m.frames.last();
            let last = m.frames.len() - 1;
            if accepts(data, f.word_size) {
                let c = candidate(f);
                let frames = m.frames.update(
                    last,
                    FrameModel { next_dep: f.next_dep + 1, next_dir: 0, ..f },
                );
                if visited(m).contains(c) {
                    settle(Model { frames, ..m })
                } else {
                    Model { frames, results: m.results.push(c), phase: PhaseModel::Inspecting, ..m }
                }
            } else {
                settle(
                    Model {
                        frames: m.frames.update(last, FrameModel { next_dir: f.next_dir + 1, ..f }),
                        ..m
                    },
                )
            }
        },
        _ => m,
    }
}

/// What the machine asks for in state `m`.
pub open spec fn request_of(m: Model) -> RequestModel {
    match m.phase {
        PhaseModel::Inspecting => RequestModel::Inspect(visited(m).last()),
        PhaseModel::Probing => RequestModel::Probe(candidate(m.frames.last())),
        PhaseModel::Failed(e) => RequestModel::Finished(Err(e)),
        PhaseModel::Complete => RequestModel::Finished(Ok(m.results)),
    }
}

/// The invariant of a traversal: no path is visited twice, every frame's cursors
/// are in range, and a probe is pending only for a real candidate.
pub open spec fn model_wf(m: Model) -> bool {
    &&& visited(m).no_duplicates()
    &&& forall|i: int|
        0 <= i < m.frames.len() ==> 0 <= #[trigger] m.frames[i].next_dep <= m.frames[i].needed.len()
            && 0 <= m.frames[i].next_dir <= m.frames[i].dirs.len()
    &&& m.phase is Probing ==> {
        &&& m.frames.len() > 0
        &&& m.frames.last().next_dep < m.frames.last().needed.len()
        &&& m.frames.last().next_dir < m.frames.last().dirs.len()
    }
}

/// One object file whose dependencies are being resolved.
pub struct Frame {
    pub word_size: WordSize,
    pub needed: Vec<Vec<u8>>,
    pub dirs: Vec<Vec<u8>>,
    pub next_dep: usize,
    pub next_dir: usize,
}

impl View for Frame {
    type V = FrameModel;

    open spec fn view(&self) -> FrameModel {
        FrameModel {
            word_size: self.word_size,
            needed: views(self.needed@),
            dirs: views(self.dirs@),
            next_dep: self.next_dep as int,
            next_dir: self.next_dir as int,
        }
    }
}

/// Why resolution failed.
#[derive(Debug, PartialEq, Eq)]
pub enum ResolveError {
    /// The file at this path could not be read.
    Unreadable(Vec<u8>),
    /// The file at this path is not a usable object file.
    Undecodable(Vec<u8>, InspectError),
    /// No search directory holds a library of this name with the right word size.
    NotFound(Vec<u8>),
}

impl View for ResolveError {
    type V = FailureModel;

    open spec fn view(&self) -> FailureModel {
        match self {
            ResolveError::Unreadable(p) => FailureModel::Unreadable(p@),
            ResolveError::Undecodable(p, e) => FailureModel::Undecodable(p@, *e),
            ResolveError::NotFound(n) => FailureModel::NotFound(n@),
        }
    }
}

impl ResolveError {
    /// Returns an equal error.
    pub fn duplicate(&self) -> (r: ResolveError)
        ensures
            r@ == self@,
    {
        match self {
            ResolveError::Unreadable(p) => ResolveError::Unreadable(copy_bytes(p.as_slice())),
            ResolveError::Undecodable(p, e) => ResolveError::Undecodable(copy_bytes(p.as_slice()), *e),
            ResolveError::NotFound(n) => ResolveError::NotFound(copy_bytes(n.as_slice())),
        }
    }
}

/// Where the traversal stands.
pub enum Phase {
    Inspecting,
    Probing,
    Failed(ResolveError),
    Complete,
}

impl View for Phase {
    type V = PhaseModel;

    open spec fn view(&self) -> PhaseModel {
        match self {
            Phase::Inspecting => PhaseModel::Inspecting,
            Phase::Probing => PhaseModel::Probing,
            Phase::Failed(e) => PhaseModel::Failed(e@),
            Phase::Complete => PhaseModel::Complete,
        }
    }
}

/// What the resolver asks of its caller.
#[derive(Debug, PartialEq, Eq)]
pub enum Request {
    /// Read this file and pass its bytes to `feed`; it will be decoded.
    Inspect(Vec<u8>),
    /// Read this file and pass its bytes to `feed`; it is a candidate library.
    Probe(Vec<u8>),
    /// Resolution has ended: every dependency's path in discovery order, or why not.
    Finished(Result<Vec<Vec<u8>>, ResolveError>),
}

impl View for Request {
    type V = RequestModel;

    open spec fn view(&self) -> RequestModel {
        match self {
            Request::Inspect(p) => RequestModel::Inspect(p@),
            Request::Probe(p) => RequestModel::Probe(p@),
            Request::Finished(Ok(v)) => RequestModel::Finished(Ok(views(v@))),
            Request::Finished(Err(e)) => RequestModel::Finished(Err(e@)),
        }
    }
}

/// The bytes of an answer, if any.
pub open spec fn answer_view(data: Option<Vec<u8>>) -> Option<Seq<u8>> {
    match data {
        Some(b) => Some(b@),
        None => None,
    }
}

/// A dependency traversal in progress.
pub struct Resolver {
    pub start: Vec<u8>,
    pub env: Vec<Vec<u8>>,
    pub results: Vec<Vec<u8>>,
    pub frames: Vec<Frame>,
    pub phase: Phase,
}

impl View for Resolver {
    type V = Model;

    open spec fn view(&self) -> Model {
        Model {
            start: self.start@,
            env: views(self.env@),
            results: views(self.results@),
            frames: self.frames@.map_values(|f: Frame| f@),
            phase: self.phase@,
        }
    }
}

/// Builds the search directories for one object.
pub fn search_dirs(env: &Vec<Vec<u8>>, hints: &Vec<Vec<u8>>) -> (r: Vec<Vec<u8>>)
    ensures
        views(r@) == search_dirs_spec(views(env@), views(hints@)),
{
    let mut r: Vec<Vec<u8>> = Vec::new();
    r.push(copy_bytes("/usr/lib".as_bytes()));
    r.push(copy_bytes("/lib64".as_bytes()));
    r.push(copy_bytes("/lib/x86_64-linux-gnu".as_bytes()));
    r.push(copy_bytes("/lib".as_bytes()));
    r.push(copy_bytes("/usr/lib64".as_bytes()));
    assert(views(r@) =~= standard_dirs());
    let mut e = copy_all(env);
    let mut h = copy_all(hints);
    assert(views(r@ + e@) =~= views(r@) + views(e@));
    r.append(&mut e);
    assert(views(r@ + h@) =~= views(r@) + views(h@));
    r.append(&mut h);
    r
}

/// An object file on disk, named by its path, whose dependencies can be resolved.
pub struct ElfFile {
    pub path: Vec<u8>,
}

/// The state in which a traversal from `start` begins.
pub open spec fn fresh(start: Seq<u8>, env: Seq<Seq<u8>>) -> Model {
    Model {
        start,
        env,
        results: Seq::empty(),
        frames: Seq::empty(),
        phase: PhaseModel::Inspecting,
    }
}

impl ElfFile {
    /// Names the object file at `path`.
    pub fn new(path: &str) -> (r: ElfFile)
        ensures
            r.path@ == path.spec_bytes(),
    {
        ElfFile { path: copy_bytes(path.as_bytes()) }
    }

    /// Starts resolving this file's dependencies; `env` lists the existing
    /// directories of the library search-path variable, in order.
    pub fn resolver(&self, env: &Vec<Vec<u8>>) -> (r: Resolver)
        ensures
            r.wf(),
            r@ == fresh(self.path@, views(env@)),
    {
        Resolver::new(self.path.as_slice(), env)
    }
}

/// `settle` keeps the invariant whenever the frames' cursors are in range.
pub(crate) proof fn lemma_settle_wf(m: Model)
    requires
        visited(m).no_duplicates(),
        forall|i: int|
            0 <= i < m.frames.len() ==> 0 <= #[trigger] m.frames[i].next_dep
                <= m.frames[i].needed.len() && 0 <= m.frames[i].next_dir <= m.frames[i].dirs.len(),
    ensures
        model_wf(settle(m)),
        settle(m).results == m.results,
        settle(m).start == m.start,
        settle(m).env == m.env,
    decreases m.frames.len(),
{
    if m.frames.len() > 0 {
        let f = m.frames.last();
        if f.next_dep >= f.needed.len() {
            let m2 = Model { frames: m.frames.drop_last(), ..m };
            assert(visited(m2) == visited(m));
            lemma_settle_wf(m2);
        }
    }
}

impl Resolver {
    /// The invariant of a traversal.
    pub open spec fn wf(&self) -> bool {
        model_wf(self@)
    }

    /// Starts a traversal from `start`, with the environment's search directories `env`.
    /// The first request is to inspect `start` itself.
    pub fn new(start: &[u8], env: &Vec<Vec<u8>>) -> (r: Resolver)
        ensures
            r.wf(),
            r@ == fresh(start@, views(env@)),
    {
        let r = Resolver {
            start: copy_bytes(start),
            env: copy_all(env),
            results: Vec::new(),
            frames: Vec::new(),
            phase: Phase::Inspecting,
        };
        assert(views(r.results@) =~= Seq::empty());
        assert(r.frames@.map_values(|f: Frame| f@) =~= Seq::empty());
        assert(visited(r@) =~= seq![start@]);
        r
    }

    /// The path that the pending inspection is about: the last visited one.
    fn last_visited(&self) -> (r: Vec<u8>)
        ensures
            r@ == visited(self@).last(),
    {
        let n = self.results.len();
        if n == 0 {
            copy_bytes(self.start.as_slice())
        } else {
            assert(views(self.results@)[n - 1] == self.results@[n - 1]@);
            copy_bytes(self.results[n - 1].as_slice())
        }
    }

    /// Drops finished frames and decides what comes next.
    fn settle_frames(&mut self)
        ensures
            final(self)@ == settle(old(self)@),
        decreases old(self).frames@.len(),
    {
        let n = self.frames.len();
        if n == 0 {
            self.phase = Phase::Complete;
            return;
        }
        let ghost fv = self.frames@[n - 1]@;
        assert(fv == self@.frames.last());
        let dep = self.frames[n - 1].next_dep;
        if dep >= self.frames[n - 1].needed.len() {
            let ghost pre = self@;
            self.frames.pop();
            assert(self@.frames =~= pre.frames.drop_last());
            assert(self@ == Model { frames: pre.frames.drop_last(), ..pre });
            self.settle_frames();
            return;
        }
        if self.frames[n - 1].next_dir >= self.frames[n - 1].dirs.len() {
            assert(fv.needed[dep as int] == self.frames@[n - 1].needed@[dep as int]@);
            let name = copy_bytes(self.frames[n - 1].needed[dep].as_slice());
            self.phase = Phase::Failed(ResolveError::NotFound(name));
            return;
        }
        self.phase = Phase::Probing;
    }

    /// Answers the pending request with the bytes of the file it named (`None` when
    /// that file could not be read), and returns the next request.
    pub fn feed(&mut self, data: Option<Vec<u8>>) -> (r: Request)
        requires
            old(self).wf(),
        ensures
            final(self).wf(),
            final(self)@ == step(old(self)@, answer_view(data)),
            r@ == request_of(final(self)@),
    {
        let ghost m = self@;
        if matches!(self.phase, Phase::Inspecting) {
            let path = self.last_visited();
            match data {
                None => {
                    self.phase = Phase::Failed(ResolveError::Unreadable(path));
                },
                Some(b) => match inspect(b.as_slice()) {
                    Err(e) => {
                        self.phase = Phase::Failed(ResolveError::Undecodable(path, e));
                    },
                    Ok(info) => {
                        let dirs = search_dirs(&self.env, &info.hints);
                        let f = Frame {
                            word_size: info.word_size,
                            needed: info.needed,
                            dirs,
                            next_dep: 0,
                            next_dir: 0,
                        };
                        self.frames.push(f);
                        let ghost pushed = Model {
                            frames: m.frames.push(
                                FrameModel {
                                    word_size: f@.word_size,
                                    needed: f@.needed,
                                    dirs: search_dirs_spec(m.env, views(info.hints@)),
                                    next_dep: 0,
                                    next_dir: 0,
                                },
                            ),
                            ..m
                        };
                        assert(self@.frames =~= pushed.frames);
                        assert(self@ == pushed);
                        proof {
                            lemma_settle_wf(pushed);
                        }
                        self.settle_frames();
                    },
                },
            }
        } else if matches!(self.phase, Phase::Probing) {
            assert(m.phase is Probing);
            let n = self.frames.len();
            let mut f = self.frames.pop().unwrap();
            assert(f@ == m.frames.last());
            assert(f@.needed.len() == f.needed@.len() && f@.dirs.len() == f.dirs@.len());
            assert(m.frames.last().next_dep < m.frames.last().needed.len());
            assert(f.next_dep < f.needed.len() && f.next_dir < f.dirs.len());
            assert(f@.dirs[f.next_dir as int] == f.dirs@[f.next_dir as int]@);
            assert(f@.needed[f.next_dep as int] == f.needed@[f.next_dep as int]@);
            let cand = join_path(f.dirs[f.next_dir].as_slice(), f.needed[f.next_dep].as_slice());
            let accepted = match &data {
                Some(b) => match classify(b.as_slice()) {
                    Some(w) => w == f.word_size,
                    None => false,
                },
                None => false,
            };
            assert(accepted == accepts(answer_view(data), m.frames.last().word_size));
            if accepted {
                f.next_dep = f.next_dep + 1;
                f.next_dir = 0;
                self.frames.push(f);
                let ghost frames = m.frames.update(
                    n - 1,
                    FrameModel { next_dep: m.frames.last().next_dep + 1, next_dir: 0, ..m.frames.last() },
                );
                assert(self@.frames =~= frames);
                assert(visited(m).contains(cand@) == (cand@ == m.start || m.results.contains(cand@))) by {
                    if m.results.contains(cand@) {
                        let k = choose|k: int| 0 <= k < m.results.len() && m.results[k] == cand@;
                        assert(visited(m)[k + 1] == cand@);
                    }
                    if visited(m).contains(cand@) && cand@ != m.start {
                        let k = choose|k: int| 0 <= k < visited(m).len() && visited(m)[k] == cand@;
                        assert(m.results[k - 1] == cand@);
                    }
                    assert(visited(m)[0] == m.start);
                }
                if bytes_eq(self.start.as_slice(), cand.as_slice()) || contains_bytes(&self.results, cand.as_slice()) {
                    assert(self@ == Model { frames, ..m });
                    proof {
                        assert forall|i: int| 0 <= i < self@.frames.len() implies 0 <= #[trigger] self@.frames[i].next_dep
                            <= self@.frames[i].needed.len() && 0 <= self@.frames[i].next_dir
                            <= self@.frames[i].dirs.len() by {
                            if i < n - 1 {
                                assert(self@.frames[i] == m.frames[i]);
                            } else {
                                assert(self@.frames[i] == frames[i]);
                            }
                        }
                        lemma_settle_wf(self@);
                    }
                    self.settle_frames();
                } else {
                    self.results.push(cand);
                    self.phase = Phase::Inspecting;
                    assert(views(self.results@) =~= m.results.push(cand@));
                    assert(visited(self@) =~= visited(m).push(cand@));
                }
            } else {
                f.next_dir = f.next_dir + 1;
                self.frames.push(f);
                let ghost frames = m.frames.update(
                    n - 1,
                    FrameModel { next_dir: m.frames.last().next_dir + 1, ..m.frames.last() },
                );
                assert(self@.frames =~= frames);
                assert(self@ == Model { frames, ..m });
                proof {
                    assert forall|i: int| 0 <= i < self@.frames.len() implies 0 <= #[trigger] self@.frames[i].next_dep
                        <= self@.frames[i].needed.len() && 0 <= self@.frames[i].next_dir
                        <= self@.frames[i].dirs.len() by {
                        if i < n - 1 {
                            assert(self@.frames[i] == m.frames[i]);
                        }
                    }
                    lemma_settle_wf(self@);
                }
                self.settle_frames();
            }
        }
        self.request()
    }

    /// What the resolver asks for now.
    pub fn request(&self) -> (r: Request)
        requires
            self.wf(),
        ensures
            r@ == request_of(self@),
    {
        match &self.phase {
            Phase::Inspecting => Request::Inspect(self.last_visited()),
            Phase::Probing => {
                let n = self.frames.len();
                let f = &self.frames[n - 1];
                assert(self@.frames.last() == f@);
                assert(f@.dirs[f.next_dir as int] == f.dirs@[f.next_dir as int]@);
                assert(f@.needed[f.next_dep as int] == f.needed@[f.next_dep as int]@);
                Request::Probe(join_path(f.dirs[f.next_dir].as_slice(), f.needed[f.next_dep].as_slice()))
            },
            Phase::Failed(e) => Request::Finished(Err(e.duplicate())),
            Phase::Complete => Request::Finished(Ok(copy_all(&self.results))),
        }
    }
}

} // verus!
