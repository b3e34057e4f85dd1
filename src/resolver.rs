//! Resolution of a root document into one flat text, driven from outside.
//!
//! A `Resolution` decides; its caller reads documents and turns include
//! paths into identifiers. Each method takes what the caller found and returns
//! the next `Action` for it, until the action is `Done` or `Failed`.

use vstd::prelude::*;
use crate::dependency_graph::{DependencyGraph, has_cycle, is_simple_cycle, lemma_ranked_acyclic, lemma_two_cycle};
use crate::directive::{directive, find_directive, first_capture, literal_value, unquoted};

verus! {

/// Why a resolution stopped.
#[derive(Debug)]
pub enum ResolveError {
    /// The document `id` could not be read.
    DocumentUnreadable { id: String, cause: String },
    /// The include path `literal` could not be turned into an identifier.
    PathUnresolvable { literal: String, cause: String },
    /// Following includes leads back to where it started, along `cycle`.
    CircularDependency { cycle: Vec<String> },
    /// The invocation did not hold exactly one string literal.
    MalformedInvocation,
}

/// What the caller of a `Resolution` is asked to do next.
#[derive(Debug)]
pub enum Action {
    /// Read the document `id`; report with `loaded` or `load_failed`.
    Load { id: String },
    /// Turn the include path `literal`, found in document `from`, into a
    /// document identifier; report with `located` or `locate_failed`.
    Locate { literal: String, from: String },
    /// The root document with every directive replaced.
    Done { text: String },
    /// The resolution stopped; nothing more is asked.
    Failed { error: ResolveError },
}

/// What a resolution waits for.
pub enum Stage {
    /// The text of the current document.
    Loading,
    /// The identifier for `literal`, the path of the directive between
    /// `before` and `after` in the current document's text.
    Locating { literal: Seq<char>, before: Seq<char>, after: Seq<char> },
    /// Nothing: the resolution is finished.
    Over,
}

/// The state of a resolution: the edges found so far, the documents waiting
/// for an included one (outermost first; each with the text around the
/// directive it waits on), the document being worked on, and the stage.
pub struct Model {
    pub graph: Set<(Seq<char>, Seq<char>)>,
    pub frames: Seq<(Seq<char>, Seq<char>, Seq<char>)>,
    pub current: Seq<char>,
    pub stage: Stage,
}

/// Where one look at a text leads.
pub enum Outcome {
    /// A directive was found in the current document.
    Locate { literal: Seq<char>, before: Seq<char>, after: Seq<char> },
    /// The root document is finished with this text.
    Done { text: Seq<char> },
}

/// One step of settling `text`, the current text of document `current`, given
/// what the scan for a directive `found` in it: a directive ends the settling;
/// with none, the text is finished, and either it is the root's or it goes
/// into the innermost waiting document, whose text is looked at next.
pub open spec fn settle_step(
    frames: Seq<(Seq<char>, Seq<char>, Seq<char>)>,
    current: Seq<char>,
    text: Seq<char>,
    found: Option<(Seq<char>, Seq<char>, Seq<char>)>,
) -> (Seq<(Seq<char>, Seq<char>, Seq<char>)>, Seq<char>, Result<Outcome, Seq<char>>) {
    match found {
        Some((before, literal, after)) => (frames, current, Ok(Outcome::Locate { literal, before, after })),
        None => if frames.len() == 0 {
            (frames, current, Ok(Outcome::Done { text }))
        } else {
            let f = frames[frames.len() - 1];
            (frames.drop_last(), f.0, Err(f.1 + text + f.2))
        },
    }
}

/// Settling `text`, the current text of document `current`, step after step
/// until a directive is found or the root is finished: while the text holds no
/// directive, it goes into the innermost waiting document, between the text
/// before and after the directive that named it.
pub open spec fn settle(
    frames: Seq<(Seq<char>, Seq<char>, Seq<char>)>,
    current: Seq<char>,
    text: Seq<char>,
) -> (Seq<(Seq<char>, Seq<char>, Seq<char>)>, Seq<char>, Outcome)
    decreases frames.len(),
{
    match first_capture(directive(), text) {
        Some((before, literal, after)) => (frames, current, Outcome::Locate { literal, before, after }),
        None => if frames.len() == 0 {
            (frames, current, Outcome::Done { text })
        } else {
            let f = frames[frames.len() - 1];
            settle(frames.drop_last(), f.0, f.1 + text + f.2)
        },
    }
}

/// The pieces of a scan's result, as character sequences.
pub open spec fn scan_view(found: Option<(String, String, String)>) -> Option<(Seq<char>, Seq<char>, Seq<char>)> {
    match found {
        Some((b, l, a)) => Some((b@, l@, a@)),
        None => None,
    }
}

/// The stage that `out` leaves, and `r` is the action that reports it, with
/// `current` the document worked on.
pub open spec fn reports(out: Outcome, current: Seq<char>, stage: Stage, r: Action) -> bool {
    match out {
        Outcome::Locate { literal, before, after } => {
            &&& stage == (Stage::Locating { literal, before, after })
            &&& r matches Action::Locate { literal: l, from } && l@ == literal && from@ == current
        },
        Outcome::Done { text } => {
            &&& stage == Stage::Over
            &&& r matches Action::Done { text: t } && t@ == text
        },
    }
}

/// A document waiting for an included one: the text before and after the
/// directive that names it.
struct Frame {
    id: String,
    before: String,
    after: String,
}

enum Phase {
    Loading,
    Locating { literal: String, before: String, after: String },
    Over,
}

/// A resolution in progress. It owns the dependency graph of the run.
pub struct Resolution {
    graph: DependencyGraph,
    frames: Vec<Frame>,
    current: String,
    phase: Phase,
}

impl View for Resolution {
    type V = Model;

    closed spec fn view(&self) -> Model {
        Model {
            graph: self.graph@,
            frames: self.frames@.map_values(|f: Frame| (f.id@, f.before@, f.after@)),
            current: self.current@,
            stage: match self.phase {
                Phase::Loading => Stage::Loading,
                Phase::Locating { literal, before, after } => Stage::Locating {
                    literal: literal@,
                    before: before@,
                    after: after@,
                },
                Phase::Over => Stage::Over,
            },
        }
    }
}

impl Resolution {
    /// The graph of the run is well formed.
    pub closed spec fn wf(&self) -> bool {
        self.graph.wf()
    }

    /// Starts the resolution of the document `root`, with an empty graph.
    pub fn start(root: String) -> (r: (Resolution, Action))
        ensures
            r.0.wf(),
            r.0@.graph == Set::<(Seq<char>, Seq<char>)>::empty(),
            r.0@.frames == Seq::<(Seq<char>, Seq<char>, Seq<char>)>::empty(),
            r.0@.current == root@,
            r.0@.stage == Stage::Loading,
            r.1 matches Action::Load { id } && id@ == root@,
    {
        let id = root.clone();
        let res = Resolution { graph: DependencyGraph::new(), frames: Vec::new(), current: root, phase: Phase::Loading };
        assert(res@.frames =~= Seq::<(Seq<char>, Seq<char>, Seq<char>)>::empty());
        (res, Action::Load { id })
    }

    /// Whether the resolution waits for the text of a document.
    pub fn is_loading(&self) -> (r: bool)
        ensures
            r == (self@.stage is Loading),
    {
        match self.phase {
            Phase::Loading => true,
            _ => false,
        }
    }

    /// Whether the resolution waits for the identifier of an include path.
    pub fn is_locating(&self) -> (r: bool)
        ensures
            r == (self@.stage is Locating),
    {
        match self.phase {
            Phase::Locating { .. } => true,
            _ => false,
        }
    }

    /// Takes one step of settling `text`, the current document's text, given
    /// `found`, what a scan for a directive found in it. Returns the action
    /// that ends the settling, or the text to look at next.
    pub fn settle_once(&mut self, text: String, found: Option<(String, String, String)>) -> (r: Result<Action, String>)
        requires
            old(self).wf(),
        ensures
            final(self).wf(),
            final(self)@.graph == old(self)@.graph,
            ({
                let found_v = scan_view(found);
                let (frames, current, step) = settle_step(old(self)@.frames, old(self)@.current, text@, found_v);
                &&& final(self)@.frames == frames
                &&& final(self)@.current == current
                &&& match step {
                    Ok(out) => r matches Ok(a) && reports(out, current, final(self)@.stage, a),
                    Err(t) => r matches Err(t2) && t2@ == t && final(self)@.stage == old(self)@.stage,
                }
            }),
    {
        match found {
            Some((before, literal, after)) => {
                let from = self.current.clone();
                self.phase = Phase::Locating { literal: literal.clone(), before, after };
                Ok(Action::Locate { literal, from })
            },
            None => {
                let ghost frames0 = self@.frames;
                match self.frames.pop() {
                    None => {
                        self.phase = Phase::Over;
                        Ok(Action::Done { text })
                    },
                    Some(f) => {
                        assert(self@.frames =~= frames0.drop_last());
                        let mut t = f.before;
                        t.append(text.as_str());
                        t.append(f.after.as_str());
                        self.current = f.id;
                        Err(t)
                    },
                }
            },
        }
    }

    /// Takes the text of the current document: substitutes into the waiting
    /// documents whatever is finished, and asks for the next include path,
    /// or hands out the root's text.
    pub fn loaded(&mut self, text: String) -> (r: Action)
        requires
            old(self).wf(),
            old(self)@.stage is Loading,
        ensures
            final(self).wf(),
            final(self)@.graph == old(self)@.graph,
            final(self)@.frames == settle(old(self)@.frames, old(self)@.current, text@).0,
            final(self)@.current == settle(old(self)@.frames, old(self)@.current, text@).1,
            reports(
                settle(old(self)@.frames, old(self)@.current, text@).2,
                final(self)@.current,
                final(self)@.stage,
                r,
            ),
    {
        let ghost goal = settle(self@.frames, self@.current, text@);
        let ghost text0 = text@;
        let mut pending = text;
        loop
            invariant
                text0 == text@,
                goal == settle(old(self)@.frames, old(self)@.current, text0),
                self.wf(),
                self@.graph == old(self)@.graph,
                settle(self@.frames, self@.current, pending@) == goal,
            decreases self@.frames.len(),
        {
            let found = find_directive(pending.as_str());
            let ghost found_v = scan_view(found);
            assert(found_v == first_capture(directive(), pending@));
            let ghost before = self@;
            let ghost text_v = pending@;
            match self.settle_once(pending, found) {
                Ok(a) => {
                    assert(settle(before.frames, before.current, text_v) == (self@.frames, self@.current,
                        settle_step(before.frames, before.current, text_v, found_v).2->Ok_0));
                    return a;
                },
                Err(t) => {
                    pending = t;
                },
            }
        }
    }

    /// Reports that the current document could not be read.
    pub fn load_failed(&mut self, cause: String) -> (r: Action)
        requires
            old(self)@.stage is Loading,
        ensures
            final(self)@ == (Model { stage: Stage::Over, ..old(self)@ }),
            final(self).wf() == old(self).wf(),
            r matches Action::Failed { error: ResolveError::DocumentUnreadable { id, cause: c } } && id@
                == old(self)@.current && c@ == cause@,
    {
        self.phase = Phase::Over;
        Action::Failed { error: ResolveError::DocumentUnreadable { id: self.current.clone(), cause } }
    }

    /// Reports that the include path being located could not be turned into
    /// an identifier.
    pub fn locate_failed(&mut self, cause: String) -> (r: Action)
        requires
            old(self)@.stage is Locating,
        ensures
            final(self)@ == (Model { stage: Stage::Over, ..old(self)@ }),
            final(self).wf() == old(self).wf(),
            r matches Action::Failed { error: ResolveError::PathUnresolvable { literal, cause: c } } && literal@
                == old(self)@.stage->literal && c@ == cause@,
    {
        let mut phase = Phase::Over;
        std::mem::swap(&mut self.phase, &mut phase);
        match phase {
            Phase::Locating { literal, .. } => Action::Failed { error: ResolveError::PathUnresolvable { literal, cause } },
            _ => {
                // Not reached: the stage is `Locating`.
                proof {
                    assert(false);
                }
                Action::Failed { error: ResolveError::MalformedInvocation }
            },
        }
    }

    /// Takes the identifier `id` of the include path being located: records
    /// the edge from the current document to `id`, and stops on a cycle;
    /// otherwise the current document waits and `id` is read next.
    pub fn located(&mut self, id: String) -> (r: Action)
        requires
            old(self).wf(),
            old(self)@.stage is Locating,
        ensures
            final(self).wf(),
            final(self)@.graph == old(self)@.graph.insert((old(self)@.current, id@)),
            has_cycle(final(self)@.graph) ==> {
                &&& final(self)@.stage == Stage::Over
                &&& final(self)@.frames == old(self)@.frames
                &&& final(self)@.current == old(self)@.current
                &&& r matches Action::Failed { error: ResolveError::CircularDependency { cycle } }
                    && is_simple_cycle(final(self)@.graph, cycle.deep_view())
            },
            !has_cycle(final(self)@.graph) ==> {
                &&& final(self)@.stage == Stage::Loading
                &&& final(self)@.frames == old(self)@.frames.push(
                    (old(self)@.current, old(self)@.stage->before, old(self)@.stage->after),
                )
                &&& final(self)@.current == id@
                &&& r matches Action::Load { id: i } && i@ == id@
            },
    {
        let mut phase = Phase::Over;
        std::mem::swap(&mut self.phase, &mut phase);
        self.graph.add_edge(self.current.clone(), id.clone());
        match self.graph.find_cycle() {
            Some(cycle) => Action::Failed { error: ResolveError::CircularDependency { cycle } },
            None => {
                match phase {
                    Phase::Locating { before, after, .. } => {
                        let ghost frames0 = self@.frames;
                        let mut parent = id.clone();
                        std::mem::swap(&mut self.current, &mut parent);
                        self.frames.push(Frame { id: parent, before, after });
                        assert(self@.frames =~= frames0.push((old(self)@.current, old(self)@.stage->before, old(self)@.stage->after)));
                        self.phase = Phase::Loading;
                        Action::Load { id }
                    },
                    _ => {
                // Not reached: the stage is `Locating`.
                proof {
                    assert(false);
                }
                Action::Failed { error: ResolveError::MalformedInvocation }
            },
                }
            },
        }
    }
}

/// The path that an invocation names, given its tokens: each literal token as
/// written, any other as `None`. The invocation must be exactly one string
/// literal.
pub open spec fn invocation_path(tokens: Seq<Option<String>>) -> Option<Seq<char>> {
    if tokens.len() == 1 && tokens[0] is Some {
        unquoted(tokens[0]->0@)
    } else {
        None
    }
}

/// Returns the path that an invocation names, or `MalformedInvocation` unless
/// its tokens are exactly one double-quoted string literal.
pub fn single_path_argument(tokens: &Vec<Option<String>>) -> (r: Result<String, ResolveError>)
    ensures
        r is Ok <==> invocation_path(tokens@) is Some,
        r matches Ok(p) ==> invocation_path(tokens@) == Some(p@),
        r matches Err(e) ==> e is MalformedInvocation,
{
    if tokens.len() != 1 {
        return Err(ResolveError::MalformedInvocation);
    }
    match &tokens[0] {
        Some(t) => match literal_value(t.as_str()) {
            Some(v) => Ok(v),
            None => Err(ResolveError::MalformedInvocation),
        },
        None => Err(ResolveError::MalformedInvocation),
    }
}

/// The separator between the identifiers of a cycle when it is shown.
pub open spec fn arrow() -> Seq<char> {
    seq![' ', '-', '>', ' ']
}

/// The identifiers of `s` joined by arrows.
pub open spec fn arrow_joined(s: Seq<Seq<char>>) -> Seq<char>
    decreases s.len(),
{
    if s.len() == 0 {
        Seq::empty()
    } else if s.len() == 1 {
        s[0]
    } else {
        arrow_joined(s.drop_last()) + arrow() + s[s.len() - 1]
    }
}

/// Returns the identifiers of `cycle` joined by arrows, as in `a -> b -> a`.
pub fn arrow_chain(cycle: &Vec<String>) -> (r: String)
    ensures
        r@ == arrow_joined(cycle.deep_view()),
{
    let mut r = String::new();
    let mut k: usize = 0;
    while k < cycle.len()
        invariant
            k <= cycle@.len(),
            r@ == arrow_joined(cycle.deep_view().take(k as int)),
        decreases cycle.len() - k,
    {
        proof {
            reveal_strlit(" -> ");
            let s = cycle.deep_view().take(k + 1);
            assert(s.drop_last() =~= cycle.deep_view().take(k as int));
        }
        if k > 0 {
            r.append(" -> ");
        } else {
            assert(r@ =~= Seq::<char>::empty());
        }
        r.append(cycle[k].as_str());
        k += 1;
    }
    assert(cycle.deep_view().take(cycle@.len() as int) =~= cycle.deep_view());
    r
}

/// A text that settling hands out as the root's contains no directive: every
/// directive in a finished text has been replaced.
pub proof fn lemma_done_has_no_directive(
    frames: Seq<(Seq<char>, Seq<char>, Seq<char>)>,
    current: Seq<char>,
    text: Seq<char>,
)
    ensures
        settle(frames, current, text).2 matches Outcome::Done { text: t } ==> first_capture(directive(), t) is None,
    decreases frames.len(),
{
    if first_capture(directive(), text) is None && frames.len() > 0 {
        let f = frames[frames.len() - 1];
        lemma_done_has_no_directive(frames.drop_last(), f.0, f.1 + text + f.2);
    }
}

/// A root document whose text holds no directive resolves to that text,
/// unchanged: the run starts by loading it and then hands it out.
pub proof fn lemma_no_directive(root: Seq<char>, text: Seq<char>)
    requires
        first_capture(directive(), text) is None,
    ensures
        settle(Seq::empty(), root, text) == (Seq::<(Seq<char>, Seq<char>, Seq<char>)>::empty(), root, Outcome::Done { text }),
{
}

/// A root document `a` with one directive, before which stands `before` and
/// after which `after`, naming a document `b` other than `a` whose text
/// `inner` holds no directive: the edge from `a` to `b` closes no cycle, `b`
/// is loaded, and the run hands out `inner` in place of the directive, where
/// no directive remains.
pub proof fn lemma_one_directive(
    a: Seq<char>,
    b: Seq<char>,
    text: Seq<char>,
    before: Seq<char>,
    literal: Seq<char>,
    after: Seq<char>,
    inner: Seq<char>,
)
    requires
        a != b,
        first_capture(directive(), text) == Some((before, literal, after)),
        first_capture(directive(), inner) is None,
        first_capture(directive(), before + inner + after) is None,
    ensures
        settle(Seq::empty(), a, text) == (Seq::<(Seq<char>, Seq<char>, Seq<char>)>::empty(), a, Outcome::Locate {
            literal,
            before,
            after,
        }),
        !has_cycle(Set::<(Seq<char>, Seq<char>)>::empty().insert((a, b))),
        settle(seq![(a, before, after)], b, inner) == (Seq::<(Seq<char>, Seq<char>, Seq<char>)>::empty(), a, Outcome::Done {
            text: before + inner + after,
        }),
{
    let g = Set::<(Seq<char>, Seq<char>)>::empty().insert((a, b));
    lemma_ranked_acyclic(g, |x: Seq<char>| if x == a { 1int } else { 0int });
    let f = seq![(a, before, after)];
    assert(f.drop_last() =~= Seq::<(Seq<char>, Seq<char>, Seq<char>)>::empty());
    assert(settle(f.drop_last(), a, before + inner + after) == (
        Seq::<(Seq<char>, Seq<char>, Seq<char>)>::empty(),
        a,
        Outcome::Done { text: before + inner + after },
    ));
}

/// Document `a` includes `b` and `b` includes `a`: the first edge closes no
/// cycle, the second does, and the cycle reported is `[a, b, a]` or `[b, a, b]`.
pub proof fn lemma_mutual_inclusion(a: Seq<char>, b: Seq<char>, c: Seq<Seq<char>>)
    requires
        a != b,
    ensures
        !has_cycle(Set::<(Seq<char>, Seq<char>)>::empty().insert((a, b))),
        has_cycle(Set::<(Seq<char>, Seq<char>)>::empty().insert((a, b)).insert((b, a))),
        is_simple_cycle(Set::<(Seq<char>, Seq<char>)>::empty().insert((a, b)).insert((b, a)), c) ==> c == seq![a, b, a]
            || c == seq![b, a, b],
{
    let g = Set::<(Seq<char>, Seq<char>)>::empty().insert((a, b));
    lemma_ranked_acyclic(g, |x: Seq<char>| if x == a { 1int } else { 0int });
    assert(g.insert((b, a)) =~= set![(a, b), (b, a)]);
    lemma_two_cycle(a, b, c);
}

/// Document `a` includes `b` and `c`, and both include `d`, all four
/// distinct: as the run adds these edges in turn, no edge closes a cycle, so
/// `d` is included twice and the run is not stopped.
pub proof fn lemma_diamond(a: Seq<char>, b: Seq<char>, c: Seq<char>, d: Seq<char>)
    requires
        a != b,
        a != c,
        a != d,
        b != c,
        b != d,
        c != d,
    ensures
        !has_cycle(Set::<(Seq<char>, Seq<char>)>::empty().insert((a, b))),
        !has_cycle(Set::<(Seq<char>, Seq<char>)>::empty().insert((a, b)).insert((b, d))),
        !has_cycle(Set::<(Seq<char>, Seq<char>)>::empty().insert((a, b)).insert((b, d)).insert((a, c))),
        !has_cycle(Set::<(Seq<char>, Seq<char>)>::empty().insert((a, b)).insert((b, d)).insert((a, c)).insert((c, d))),
{
    let rank = |x: Seq<char>| if x == a { 2int } else if x == d { 0int } else { 1int };
    let g1 = Set::<(Seq<char>, Seq<char>)>::empty().insert((a, b));
    let g2 = g1.insert((b, d));
    let g3 = g2.insert((a, c));
    let g4 = g3.insert((c, d));
    lemma_ranked_acyclic(g1, rank);
    lemma_ranked_acyclic(g2, rank);
    lemma_ranked_acyclic(g3, rank);
    lemma_ranked_acyclic(g4, rank);
}

/// A whole diamond run. Root `a` includes `b`, then `c`; both include `d`,
/// whose text `td` holds no directive; the four are distinct. Given where
/// the scans find each directive (`a`'s second directive stands between `a1`
/// and `a2` once `b` is in place), the run never meets a cycle and hands out
/// `a`'s text with each directive replaced, so that `td` comes twice.
pub proof fn lemma_diamond_run(
    a: Seq<char>,
    b: Seq<char>,
    c: Seq<char>,
    d: Seq<char>,
    ta: Seq<char>,
    tb: Seq<char>,
    tc: Seq<char>,
    td: Seq<char>,
    a0: Seq<char>,
    a1: Seq<char>,
    a2: Seq<char>,
    rest: Seq<char>,
    b0: Seq<char>,
    b1: Seq<char>,
    c0: Seq<char>,
    c1: Seq<char>,
    lb: Seq<char>,
    lc: Seq<char>,
    ld: Seq<char>,
    ld2: Seq<char>,
)
    requires
        a != b,
        a != c,
        a != d,
        b != c,
        b != d,
        c != d,
        first_capture(directive(), ta) == Some((a0, lb, rest)),
        first_capture(directive(), tb) == Some((b0, ld, b1)),
        first_capture(directive(), td) is None,
        first_capture(directive(), b0 + td + b1) is None,
        first_capture(directive(), a0 + (b0 + td + b1) + rest) == Some((a0 + (b0 + td + b1) + a1, lc, a2)),
        first_capture(directive(), tc) == Some((c0, ld2, c1)),
        first_capture(directive(), c0 + td + c1) is None,
        first_capture(directive(), (a0 + (b0 + td + b1) + a1) + (c0 + td + c1) + a2) is None,
    ensures
        settle(Seq::empty(), a, ta) == (Seq::<(Seq<char>, Seq<char>, Seq<char>)>::empty(), a, Outcome::Locate {
            literal: lb,
            before: a0,
            after: rest,
        }),
        !has_cycle(Set::<(Seq<char>, Seq<char>)>::empty().insert((a, b))),
        settle(seq![(a, a0, rest)], b, tb) == (seq![(a, a0, rest)], b, Outcome::Locate {
            literal: ld,
            before: b0,
            after: b1,
        }),
        !has_cycle(Set::<(Seq<char>, Seq<char>)>::empty().insert((a, b)).insert((b, d))),
        settle(seq![(a, a0, rest), (b, b0, b1)], d, td) == (Seq::<(Seq<char>, Seq<char>, Seq<char>)>::empty(), a, Outcome::Locate {
            literal: lc,
            before: a0 + (b0 + td + b1) + a1,
            after: a2,
        }),
        !has_cycle(Set::<(Seq<char>, Seq<char>)>::empty().insert((a, b)).insert((b, d)).insert((a, c))),
        settle(seq![(a, a0 + (b0 + td + b1) + a1, a2)], c, tc) == (seq![(a, a0 + (b0 + td + b1) + a1, a2)], c, Outcome::Locate {
            literal: ld2,
            before: c0,
            after: c1,
        }),
        !has_cycle(Set::<(Seq<char>, Seq<char>)>::empty().insert((a, b)).insert((b, d)).insert((a, c)).insert((c, d))),
        settle(seq![(a, a0 + (b0 + td + b1) + a1, a2), (c, c0, c1)], d, td) == (
            Seq::<(Seq<char>, Seq<char>, Seq<char>)>::empty(),
            a,
            Outcome::Done { text: (a0 + (b0 + td + b1) + a1) + (c0 + td + c1) + a2 },
        ),
{
    lemma_diamond(a, b, c, d);
    let f1 = seq![(a, a0, rest)];
    let f2 = seq![(a, a0, rest), (b, b0, b1)];
    assert(f2.drop_last() =~= f1);
    assert(f1.drop_last() =~= Seq::<(Seq<char>, Seq<char>, Seq<char>)>::empty());
    assert(settle(f1, b, b0 + td + b1) == settle(Seq::empty(), a, a0 + (b0 + td + b1) + rest));
    let g1 = seq![(a, a0 + (b0 + td + b1) + a1, a2)];
    let g2 = seq![(a, a0 + (b0 + td + b1) + a1, a2), (c, c0, c1)];
    assert(g2.drop_last() =~= g1);
    assert(g1.drop_last() =~= Seq::<(Seq<char>, Seq<char>, Seq<char>)>::empty());
    assert(settle(g1, c, c0 + td + c1) == settle(
        Seq::empty(),
        a,
        (a0 + (b0 + td + b1) + a1) + (c0 + td + c1) + a2,
    ));
}

} // verus!
