//! The middleware pipeline: ordered pre-steps and after-steps around a
//! handler. A route carries its steps as explicit lists; a request runs
//! through them under [`Dispatch`], which decides each next call while the
//! caller performs it (the steps and the handler are asynchronous and live
//! outside this crate).
use vstd::prelude::*;
use crate::error::Error;
use crate::request::Request;
use crate::response::Response;

verus! {

/// What a pre-step receives and returns.
pub type RequestOutcome = core::result::Result<Request<String>, Error>;

/// What the handler and an after-step return, and what an after-step receives.
pub type ResponseOutcome = core::result::Result<Response<String>, Error>;

/// Copies of the steps of `v`, in order.
fn copy_steps<S: Copy>(v: &Vec<S>, out: &mut Vec<S>)
    ensures
        final(out)@ == old(out)@ + v@,
{
    let mut i: usize = 0;
    let ghost start = out@;
    while i < v.len()
        invariant
            i <= v@.len(),
            out@ == start + v@.subrange(0, i as int),
        decreases v@.len() - i,
    {
        let s: S = v[i];
        out.push(s);
        assert(v@.subrange(0, i + 1) =~= v@.subrange(0, i as int).push(s));
        assert(out@ =~= start + v@.subrange(0, i + 1));
        i = i + 1;
    }
    assert(v@.subrange(0, i as int) =~= v@);
}

/// A combined pre-step and after-step, kept as the ordered lists of the
/// steps appended to it. Built by value: appending returns a new factory.
pub struct MiddlewareFactory<P, A> {
    pre: Vec<P>,
    after: Vec<A>,
}

impl<P: Copy, A: Copy> MiddlewareFactory<P, A> {
    /// The pre-steps, first to run first.
    pub closed spec fn pre_steps(&self) -> Seq<P> {
        self.pre@
    }

    /// The after-steps, first to run first.
    pub closed spec fn after_steps(&self) -> Seq<A> {
        self.after@
    }

    /// The factory whose steps pass everything through: no steps at all.
    pub fn new() -> (r: Self)
        ensures
            r.pre_steps() == Seq::<P>::empty(),
            r.after_steps() == Seq::<A>::empty(),
    {
        MiddlewareFactory { pre: Vec::new(), after: Vec::new() }
    }

    /// This factory with `step` run after its current pre-steps.
    pub fn pre(self, step: P) -> (r: Self)
        ensures
            r.pre_steps() == self.pre_steps().push(step),
            r.after_steps() == self.after_steps(),
    {
        let mut pre = self.pre;
        pre.push(step);
        MiddlewareFactory { pre, after: self.after }
    }

    /// This factory with `step` run after its current after-steps.
    pub fn after(self, step: A) -> (r: Self)
        ensures
            r.pre_steps() == self.pre_steps(),
            r.after_steps() == self.after_steps().push(step),
    {
        let mut after = self.after;
        after.push(step);
        MiddlewareFactory { pre: self.pre, after }
    }

    /// A copy of this factory.
    pub fn duplicate(&self) -> (r: Self)
        ensures
            r.pre_steps() == self.pre_steps(),
            r.after_steps() == self.after_steps(),
    {
        let mut pre = Vec::new();
        copy_steps(&self.pre, &mut pre);
        let mut after = Vec::new();
        copy_steps(&self.after, &mut after);
        assert(pre@ =~= self.pre@);
        assert(after@ =~= self.after@);
        MiddlewareFactory { pre, after }
    }

    /// `outer` is `inner` wrapped in this factory's steps.
    pub open spec fn wraps<R>(&self, inner: Route<R, P, A>, outer: Route<R, P, A>) -> bool {
        &&& outer.runner == inner.runner
        &&& outer.pre@ == self.pre_steps() + inner.pre@
        &&& outer.after@ == inner.after@ + self.after_steps()
    }

    /// `outer` is `runner` with this factory's steps, and no others, around it.
    pub open spec fn wraps_runner<R>(&self, runner: R, outer: Route<R, P, A>) -> bool {
        &&& outer.runner == runner
        &&& outer.pre@ == self.pre_steps()
        &&& outer.after@ == self.after_steps()
    }

    /// Wraps a route in this factory's steps: they run before the route's
    /// own pre-steps, and after the route's own after-steps.
    pub fn build<R>(&self, route: Route<R, P, A>) -> (r: Route<R, P, A>)
        ensures
            self.wraps(route, r),
    {
        let Route { runner, pre: inner_pre, after: inner_after } = route;
        let mut pre = Vec::new();
        copy_steps(&self.pre, &mut pre);
        copy_steps(&inner_pre, &mut pre);
        let mut after = inner_after;
        copy_steps(&self.after, &mut after);
        assert(pre@ =~= self.pre@ + inner_pre@);
        Route { runner, pre, after }
    }
}

/// A handler together with the steps that run around it.
pub struct Route<R, P, A> {
    pub runner: R,
    pub pre: Vec<P>,
    pub after: Vec<A>,
}

impl<R, P, A> Route<R, P, A> {
    /// A handler with no steps around it.
    pub fn new(runner: R) -> (r: Self)
        ensures
            r.runner == runner,
            r.pre@ == Seq::<P>::empty(),
            r.after@ == Seq::<A>::empty(),
    {
        Route { runner, pre: Vec::new(), after: Vec::new() }
    }
}

/// Where a request stands in its pipeline.
#[derive(Clone, Copy, Debug, PartialEq, Eq, Structural)]
pub enum Stage {
    /// Awaiting the result of the pre-step of this index.
    Pre(usize),
    /// Awaiting the handler's result.
    Handler,
    /// Awaiting the result of the after-step of this index.
    After(usize),
    /// Finished.
    Done,
}

/// The call the caller is to make next.
#[derive(Debug)]
#[allow(inconsistent_fields)]
pub enum Action {
    /// Run the pre-step of this index on `input`.
    Pre { index: usize, input: RequestOutcome },
    /// Run the handler on `request`.
    Handle { request: Request<String> },
    /// Run the after-step of this index on `input`.
    After { index: usize, input: ResponseOutcome },
    /// The pipeline is over: `outcome` is the final response or error.
    Finish { outcome: ResponseOutcome },
}

/// The stage and action that follow once the after-steps from `j` on are
/// to run on `x`.
pub open spec fn after_from(n_after: nat, j: nat, x: ResponseOutcome) -> (Stage, Action) {
    if j < n_after {
        (Stage::After(j as usize), Action::After { index: j as usize, input: x })
    } else {
        (Stage::Done, Action::Finish { outcome: x })
    }
}

/// The stage and action that follow once the pre-steps from `i` on are to
/// run on `x`: past the last pre-step, a request goes to the handler, and an
/// error skips it and goes to the after-steps.
pub open spec fn pre_from(n_pre: nat, n_after: nat, i: nat, x: RequestOutcome) -> (Stage, Action) {
    if i < n_pre {
        (Stage::Pre(i as usize), Action::Pre { index: i as usize, input: x })
    } else {
        match x {
            Ok(req) => (Stage::Handler, Action::Handle { request: req }),
            Err(e) => after_from(n_after, 0, Err(e)),
        }
    }
}

/// The outcome after the first `i` pre-steps, where `f(k, x)` is what
/// pre-step `k` returns on `x`.
pub open spec fn pre_fold(
    f: spec_fn(nat, RequestOutcome) -> RequestOutcome,
    request: Request<String>,
    i: nat,
) -> RequestOutcome
    decreases i,
{
    if i == 0 {
        Ok(request)
    } else {
        f((i - 1) as nat, pre_fold(f, request, (i - 1) as nat))
    }
}

/// The outcome after the first `j` after-steps on `x`, where `g(k, x)` is
/// what after-step `k` returns on `x`.
pub open spec fn after_fold(
    g: spec_fn(nat, ResponseOutcome) -> ResponseOutcome,
    x: ResponseOutcome,
    j: nat,
) -> ResponseOutcome
    decreases j,
{
    if j == 0 {
        x
    } else {
        g((j - 1) as nat, after_fold(g, x, (j - 1) as nat))
    }
}

/// What reaches the first after-step: the handler's result on the request
/// that the pre-steps let through, or the error they ended with.
pub open spec fn handled(
    n_pre: nat,
    f: spec_fn(nat, RequestOutcome) -> RequestOutcome,
    h: spec_fn(Request<String>) -> ResponseOutcome,
    request: Request<String>,
) -> ResponseOutcome {
    match pre_fold(f, request, n_pre) {
        Ok(r) => h(r),
        Err(e) => Err(e),
    }
}

/// The action that follows `a` once the caller has performed it with the
/// pre-steps `f`, the handler `h` and the after-steps `g`.
pub open spec fn next_action(
    n_pre: nat,
    n_after: nat,
    a: Action,
    f: spec_fn(nat, RequestOutcome) -> RequestOutcome,
    h: spec_fn(Request<String>) -> ResponseOutcome,
    g: spec_fn(nat, ResponseOutcome) -> ResponseOutcome,
) -> Action {
    match a {
        Action::Pre { index, input } => pre_from(n_pre, n_after, index as nat + 1, f(index as nat, input)).1,
        Action::Handle { request } => after_from(n_after, 0, h(request)).1,
        Action::After { index, input } => after_from(n_after, index as nat + 1, g(index as nat, input)).1,
        Action::Finish { outcome } => a,
    }
}

/// The actions issued from `a` on, up to the finish or `fuel` steps.
pub open spec fn trace(
    n_pre: nat,
    n_after: nat,
    a: Action,
    f: spec_fn(nat, RequestOutcome) -> RequestOutcome,
    h: spec_fn(Request<String>) -> ResponseOutcome,
    g: spec_fn(nat, ResponseOutcome) -> ResponseOutcome,
    fuel: nat,
) -> Seq<Action>
    decreases fuel,
{
    if fuel == 0 || a is Finish {
        seq![a]
    } else {
        seq![a] + trace(n_pre, n_after, next_action(n_pre, n_after, a, f, h, g), f, h, g, (fuel - 1) as nat)
    }
}

/// The after-step calls from `j` on, and the finish.
pub open spec fn after_calls(
    n_after: nat,
    g: spec_fn(nat, ResponseOutcome) -> ResponseOutcome,
    x: ResponseOutcome,
    j: nat,
) -> Seq<Action> {
    Seq::new(
        (n_after - j) as nat,
        |k: int| Action::After { index: (j + k) as usize, input: after_fold(g, x, (j + k) as nat) },
    ).push(Action::Finish { outcome: after_fold(g, x, n_after) })
}

/// The handler call, when the pre-steps let a request through.
pub open spec fn handler_calls(
    n_pre: nat,
    f: spec_fn(nat, RequestOutcome) -> RequestOutcome,
    request: Request<String>,
) -> Seq<Action> {
    match pre_fold(f, request, n_pre) {
        Ok(r) => seq![Action::Handle { request: r }],
        Err(_) => seq![],
    }
}

/// The pre-step calls from `i` on.
pub open spec fn pre_calls(
    n_pre: nat,
    f: spec_fn(nat, RequestOutcome) -> RequestOutcome,
    request: Request<String>,
    i: nat,
) -> Seq<Action> {
    Seq::new(
        (n_pre - i) as nat,
        |k: int| Action::Pre { index: (i + k) as usize, input: pre_fold(f, request, (i + k) as nat) },
    )
}

proof fn lemma_after_run(
    n_pre: nat,
    n_after: nat,
    f: spec_fn(nat, RequestOutcome) -> RequestOutcome,
    h: spec_fn(Request<String>) -> ResponseOutcome,
    g: spec_fn(nat, ResponseOutcome) -> ResponseOutcome,
    x: ResponseOutcome,
    j: nat,
    fuel: nat,
)
    requires
        j <= n_after <= usize::MAX,
        fuel >= n_after - j + 1,
    ensures
        trace(n_pre, n_after, after_from(n_after, j, after_fold(g, x, j)).1, f, h, g, fuel)
            == after_calls(n_after, g, x, j),
    decreases n_after - j,
{
    let a = after_from(n_after, j, after_fold(g, x, j)).1;
    if j == n_after {
        assert(after_calls(n_after, g, x, j) =~= seq![a]);
    } else {
        assert(after_fold(g, x, j + 1) == g(j, after_fold(g, x, j)));
        assert(next_action(n_pre, n_after, a, f, h, g) == after_from(n_after, j + 1, after_fold(g, x, j + 1)).1);
        lemma_after_run(n_pre, n_after, f, h, g, x, j + 1, (fuel - 1) as nat);
        assert(after_calls(n_after, g, x, j) =~= seq![a] + after_calls(n_after, g, x, j + 1));
    }
}

proof fn lemma_pre_run(
    n_pre: nat,
    n_after: nat,
    f: spec_fn(nat, RequestOutcome) -> RequestOutcome,
    h: spec_fn(Request<String>) -> ResponseOutcome,
    g: spec_fn(nat, ResponseOutcome) -> ResponseOutcome,
    request: Request<String>,
    i: nat,
    fuel: nat,
)
    requires
        i <= n_pre <= usize::MAX,
        n_after <= usize::MAX,
        fuel >= n_pre - i + n_after + 2,
    ensures
        trace(n_pre, n_after, pre_from(n_pre, n_after, i, pre_fold(f, request, i)).1, f, h, g, fuel)
            == pre_calls(n_pre, f, request, i) + handler_calls(n_pre, f, request) + after_calls(
            n_after,
            g,
            handled(n_pre, f, h, request),
            0,
        ),
    decreases n_pre - i,
{
    let x = handled(n_pre, f, h, request);
    let a = pre_from(n_pre, n_after, i, pre_fold(f, request, i)).1;
    if i == n_pre {
        assert(pre_calls(n_pre, f, request, i) =~= seq![]);
        match pre_fold(f, request, n_pre) {
            Ok(r) => {
                assert(next_action(n_pre, n_after, a, f, h, g) == after_from(n_after, 0, after_fold(g, x, 0)).1);
                lemma_after_run(n_pre, n_after, f, h, g, x, 0, (fuel - 1) as nat);
                assert(seq![a] + after_calls(n_after, g, x, 0) =~= seq![] + handler_calls(n_pre, f, request)
                    + after_calls(n_after, g, x, 0));
            },
            Err(e) => {
                assert(a == after_from(n_after, 0, after_fold(g, x, 0)).1);
                lemma_after_run(n_pre, n_after, f, h, g, x, 0, fuel);
                assert(after_calls(n_after, g, x, 0) =~= seq![] + handler_calls(n_pre, f, request)
                    + after_calls(n_after, g, x, 0));
            },
        }
    } else {
        assert(pre_fold(f, request, i + 1) == f(i, pre_fold(f, request, i)));
        lemma_pre_run(n_pre, n_after, f, h, g, request, i + 1, (fuel - 1) as nat);
        assert(pre_calls(n_pre, f, request, i) =~= seq![a] + pre_calls(n_pre, f, request, i + 1));
    }
}

/// A request runs through its pipeline in this order: every pre-step, each
/// on what the one before returned (the first on the request); then the
/// handler, only when the last pre-step returned a request; then every
/// after-step, each on what came before; then the finish with what the last
/// after-step returned. `f`, `h` and `g` are what the pre-steps, the handler
/// and the after-steps do.
pub proof fn lemma_run_order(
    n_pre: usize,
    n_after: usize,
    request: Request<String>,
    f: spec_fn(nat, RequestOutcome) -> RequestOutcome,
    h: spec_fn(Request<String>) -> ResponseOutcome,
    g: spec_fn(nat, ResponseOutcome) -> ResponseOutcome,
)
    ensures
        trace(
            n_pre as nat,
            n_after as nat,
            pre_from(n_pre as nat, n_after as nat, 0, Ok(request)).1,
            f,
            h,
            g,
            n_pre as nat + n_after as nat + 2,
        ) == pre_calls(n_pre as nat, f, request, 0) + handler_calls(n_pre as nat, f, request)
            + after_calls(n_after as nat, g, handled(n_pre as nat, f, h, request), 0),
{
    lemma_pre_run(n_pre as nat, n_after as nat, f, h, g, request, 0, n_pre as nat + n_after as nat + 2);
}

/// When the first pre-step fails and the later pre-steps pass an error
/// through unchanged, the handler is never called, the later pre-steps see
/// only that error, and every after-step still runs, the first on that error.
pub proof fn lemma_short_circuit(
    n_pre: usize,
    n_after: usize,
    request: Request<String>,
    f: spec_fn(nat, RequestOutcome) -> RequestOutcome,
    h: spec_fn(Request<String>) -> ResponseOutcome,
    g: spec_fn(nat, ResponseOutcome) -> ResponseOutcome,
)
    requires
        n_pre >= 1,
        (f(0, Ok(request)) is Err),
        forall|k: nat, e: Error| 1 <= k < n_pre ==> #[trigger] f(k, Err(e)) == Err::<Request<String>, Error>(e),
    ensures
        ({
            let t = trace(
                n_pre as nat,
                n_after as nat,
                pre_from(n_pre as nat, n_after as nat, 0, Ok(request)).1,
                f,
                h,
                g,
                n_pre as nat + n_after as nat + 2,
            );
            let e = f(0, Ok(request));
            &&& t.len() == n_pre + n_after + 1
            &&& forall|k: int| 0 <= k < t.len() ==> !(#[trigger] t[k] is Handle)
            &&& forall|k: int|
                1 <= k < n_pre ==> #[trigger] t[k] == (Action::Pre { index: k as usize, input: e })
            &&& forall|k: int|
                0 <= k < n_after ==> #[trigger] t[n_pre + k] == (Action::After {
                    index: k as usize,
                    input: after_fold(g, Err(e->Err_0), k as nat),
                })
        }),
{
    let e = f(0, Ok(request));
    lemma_run_order(n_pre, n_after, request, f, h, g);
    assert forall|k: nat| 1 <= k <= n_pre implies pre_fold(f, request, k) == e by {
        lemma_pre_fold_stays(n_pre, f, request, e, k);
    }
    assert(handled(n_pre as nat, f, h, request) == Err::<Response<String>, Error>(e->Err_0));
}

proof fn lemma_pre_fold_stays(
    n_pre: usize,
    f: spec_fn(nat, RequestOutcome) -> RequestOutcome,
    request: Request<String>,
    e: RequestOutcome,
    k: nat,
)
    requires
        1 <= k <= n_pre,
        e == f(0, Ok(request)),
        (e is Err),
        forall|k: nat, e: Error| 1 <= k < n_pre ==> #[trigger] f(k, Err(e)) == Err::<Request<String>, Error>(e),
    ensures
        pre_fold(f, request, k) == e,
    decreases k,
{
    if k > 1 {
        lemma_pre_fold_stays(n_pre, f, request, e, (k - 1) as nat);
        assert(f((k - 1) as nat, Err(e->Err_0)) == Err::<Request<String>, Error>(e->Err_0));
    } else {
        assert(pre_fold(f, request, 0) == Ok::<Request<String>, Error>(request));
    }
}

/// An after-step that turns every error into the same response decides the
/// outcome whenever an error reaches it, wherever that error arose: in a
/// pre-step, in the handler, or in an earlier after-step.
pub proof fn lemma_recovering_after(
    n_pre: usize,
    n_after: usize,
    request: Request<String>,
    f: spec_fn(nat, RequestOutcome) -> RequestOutcome,
    h: spec_fn(Request<String>) -> ResponseOutcome,
    g: spec_fn(nat, ResponseOutcome) -> ResponseOutcome,
    fixed: Response<String>,
)
    requires
        n_after >= 1,
        forall|e: Error| #[trigger] g((n_after - 1) as nat, Err(e)) == Ok::<Response<String>, Error>(fixed),
        (after_fold(g, handled(n_pre as nat, f, h, request), (n_after - 1) as nat) is Err),
    ensures
        trace(
            n_pre as nat,
            n_after as nat,
            pre_from(n_pre as nat, n_after as nat, 0, Ok(request)).1,
            f,
            h,
            g,
            n_pre as nat + n_after as nat + 2,
        ).last() == (Action::Finish { outcome: Ok(fixed) }),
{
    lemma_run_order(n_pre, n_after, request, f, h, g);
    let x = handled(n_pre as nat, f, h, request);
    let before = after_fold(g, x, (n_after - 1) as nat);
    assert(after_fold(g, x, n_after as nat) == g((n_after - 1) as nat, Err(before->Err_0)));
}

/// The progress of one request through a route's pipeline.
pub struct Dispatch {
    n_pre: usize,
    n_after: usize,
    stage: Stage,
}

impl Dispatch {
    #[verifier::type_invariant]
    spec fn inv(&self) -> bool {
        match self.stage {
            Stage::Pre(i) => i < self.n_pre,
            Stage::After(j) => j < self.n_after,
            _ => true,
        }
    }

    pub closed spec fn spec_n_pre(&self) -> nat {
        self.n_pre as nat
    }

    pub closed spec fn spec_n_after(&self) -> nat {
        self.n_after as nat
    }

    pub closed spec fn spec_stage(&self) -> Stage {
        self.stage
    }

    /// The dispatch at `stage` of a pipeline with these step counts.
    pub open spec fn at(n_pre: nat, n_after: nat, stage: Stage, d: Dispatch) -> bool {
        d.spec_n_pre() == n_pre && d.spec_n_after() == n_after && d.spec_stage() == stage
    }

    fn enter_after(n_after: usize, j: usize, x: ResponseOutcome) -> (r: (Stage, Action))
        requires
            j <= n_after,
        ensures
            r == after_from(n_after as nat, j as nat, x),
    {
        if j < n_after {
            (Stage::After(j), Action::After { index: j, input: x })
        } else {
            (Stage::Done, Action::Finish { outcome: x })
        }
    }

    fn enter_pre(n_pre: usize, n_after: usize, i: usize, x: RequestOutcome) -> (r: (Stage, Action))
        requires
            i <= n_pre,
        ensures
            r == pre_from(n_pre as nat, n_after as nat, i as nat, x),
    {
        if i < n_pre {
            (Stage::Pre(i), Action::Pre { index: i, input: x })
        } else {
            match x {
                Ok(req) => (Stage::Handler, Action::Handle { request: req }),
                Err(e) => Self::enter_after(n_after, 0, Err(e)),
            }
        }
    }

    /// Starts a request through a pipeline of `n_pre` pre-steps and
    /// `n_after` after-steps: the first pre-step gets `Ok(request)`.
    pub fn start(n_pre: usize, n_after: usize, request: Request<String>) -> (r: (Dispatch, Action))
        ensures
            Self::at(n_pre as nat, n_after as nat, pre_from(n_pre as nat, n_after as nat, 0, Ok(request)).0, r.0),
            r.1 == pre_from(n_pre as nat, n_after as nat, 0, Ok(request)).1,
    {
        let (stage, action) = Self::enter_pre(n_pre, n_after, 0, Ok(request));
        (Dispatch { n_pre, n_after, stage }, action)
    }

    /// Whether the dispatch awaits the result of a pre-step.
    pub fn awaits_request(&self) -> (r: bool)
        ensures
            r == self.spec_stage() is Pre,
    {
        match self.stage {
            Stage::Pre(_) => true,
            _ => false,
        }
    }

    /// Whether the dispatch awaits the result of the handler or of an
    /// after-step.
    pub fn awaits_response(&self) -> (r: bool)
        ensures
            r == (self.spec_stage() is Handler || self.spec_stage() is After),
    {
        match self.stage {
            Stage::Handler | Stage::After(_) => true,
            _ => false,
        }
    }

    /// Takes the result of the pre-step just run; the next pre-step gets it
    /// as it is, whether a request or an error.
    pub fn pre_done(&mut self, out: RequestOutcome) -> (r: Action)
        requires
            (old(self).spec_stage() is Pre),
        ensures
            ({
                let next = pre_from(
                    old(self).spec_n_pre(),
                    old(self).spec_n_after(),
                    old(self).spec_stage()->Pre_0 as nat + 1,
                    out,
                );
                &&& Self::at(old(self).spec_n_pre(), old(self).spec_n_after(), next.0, *final(self))
                &&& r == next.1
            }),
    {
        proof {
            use_type_invariant(&*self);
        }
        let i = match self.stage {
            Stage::Pre(i) => i,
            _ => 0,
        };
        let (stage, action) = Self::enter_pre(self.n_pre, self.n_after, i + 1, out);
        self.stage = stage;
        action
    }

    /// Takes the result of the handler or of the after-step just run; the
    /// next after-step gets it as it is, whether a response or an error.
    pub fn response_done(&mut self, out: ResponseOutcome) -> (r: Action)
        requires
            (old(self).spec_stage() is Handler || old(self).spec_stage() is After),
        ensures
            ({
                let j: nat = match old(self).spec_stage() {
                    Stage::After(j) => j as nat + 1,
                    _ => 0,
                };
                let next = after_from(old(self).spec_n_after(), j, out);
                &&& Self::at(old(self).spec_n_pre(), old(self).spec_n_after(), next.0, *final(self))
                &&& r == next.1
            }),
    {
        proof {
            use_type_invariant(&*self);
        }
        let j = match self.stage {
            Stage::After(j) => j + 1,
            _ => 0,
        };
        let (stage, action) = Self::enter_after(self.n_after, j, out);
        self.stage = stage;
        action
    }
}

} // verus!
