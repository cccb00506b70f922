//! A router: one path trie per HTTP method, and the middleware factory whose
//! steps wrap every route registered through it.
use vstd::prelude::*;
use crate::handle_selector::{prefixes, resolve, HandlerSelect};
use crate::middleware::{MiddlewareFactory, Route};
use crate::path::{pattern_of, Key};
use crate::request::Method;

verus! {

/// Routes by method and path to runners of type `R`, wrapped in pre-steps
/// of type `P` and after-steps of type `A`.
pub struct Router<R, P, A> {
    middleware_factory: MiddlewareFactory<P, A>,
    get: HandlerSelect<Route<R, P, A>>,
    put: HandlerSelect<Route<R, P, A>>,
    delete: HandlerSelect<Route<R, P, A>>,
    post: HandlerSelect<Route<R, P, A>>,
    trace: HandlerSelect<Route<R, P, A>>,
    options: HandlerSelect<Route<R, P, A>>,
    connect: HandlerSelect<Route<R, P, A>>,
    patch: HandlerSelect<Route<R, P, A>>,
    head: HandlerSelect<Route<R, P, A>>,
}

impl<R, P: Copy, A: Copy> Router<R, P, A> {
    /// The trie of one method.
    pub closed spec fn trie(&self, m: Method) -> HandlerSelect<Route<R, P, A>> {
        match m {
            Method::GET => self.get,
            Method::PUT => self.put,
            Method::DELETE => self.delete,
            Method::POST => self.post,
            Method::TRACE => self.trace,
            Method::OPTIONS => self.options,
            Method::CONNECT => self.connect,
            Method::PATCH => self.patch,
            Method::HEAD => self.head,
        }
    }

    /// The routes registered for a method, by pattern.
    pub open spec fn routes(&self, m: Method) -> Map<Seq<Key>, Route<R, P, A>> {
        self.trie(m).spec_routes()
    }

    /// The trie nodes of a method.
    pub open spec fn nodes(&self, m: Method) -> Set<Seq<Key>> {
        self.trie(m).spec_nodes()
    }

    /// The steps that wrap routes registered from now on.
    pub closed spec fn factory(&self) -> MiddlewareFactory<P, A> {
        self.middleware_factory
    }

    pub open spec fn wf(&self) -> bool {
        forall|m: Method| #[trigger] self.trie(m).wf()
    }

    /// `merged` is `parent` with the routes of `child` added, each wrapped in
    /// the parent's steps.
    pub open spec fn merged(parent: Self, child: Self, merged: Self) -> bool {
        &&& merged.factory() == parent.factory()
        &&& forall|m: Method| #[trigger]
            merged.nodes(m) == parent.nodes(m) + child.nodes(m)
        &&& forall|m: Method, q: Seq<Key>| #[trigger]
            merged.routes(m).contains_key(q) == (parent.routes(m).contains_key(q)
                || child.routes(m).contains_key(q))
        &&& forall|m: Method, q: Seq<Key>| #[trigger]
            parent.routes(m).contains_key(q) ==> merged.routes(m)[q] == parent.routes(m)[q]
        &&& forall|m: Method, q: Seq<Key>| #[trigger]
            child.routes(m).contains_key(q) ==> parent.factory().wraps(
                child.routes(m)[q],
                merged.routes(m)[q],
            )
    }

    /// Merge order: when the parent's steps are the pre-step `a` and the
    /// after-step `x`, a child route registered with the pre-step `b` and
    /// the after-step `y` runs `a`, `b`, its handler, `y`, `x` once merged,
    /// while a route the parent registered with `a` and `x` keeps exactly
    /// those.
    pub proof fn lemma_merge_order(
        parent: Self,
        child: Self,
        merged: Self,
        m: Method,
        from_child: Seq<Key>,
        from_parent: Seq<Key>,
        a: P,
        b: P,
        x: A,
        y: A,
    )
        requires
            Self::merged(parent, child, merged),
            parent.factory().pre_steps() == seq![a],
            parent.factory().after_steps() == seq![x],
            child.routes(m).contains_key(from_child),
            !parent.routes(m).contains_key(from_child),
            child.routes(m)[from_child].pre@ == seq![b],
            child.routes(m)[from_child].after@ == seq![y],
            parent.routes(m).contains_key(from_parent),
            parent.factory().wraps_runner(parent.routes(m)[from_parent].runner, parent.routes(m)[from_parent]),
        ensures
            merged.routes(m)[from_child].pre@ == seq![a, b],
            merged.routes(m)[from_child].after@ == seq![y, x],
            merged.routes(m)[from_child].runner == child.routes(m)[from_child].runner,
            merged.routes(m)[from_parent].pre@ == seq![a],
            merged.routes(m)[from_parent].after@ == seq![x],
    {
        assert(parent.factory().wraps(child.routes(m)[from_child], merged.routes(m)[from_child]));
        assert(seq![a] + seq![b] =~= seq![a, b]);
        assert(seq![y] + seq![x] =~= seq![y, x]);
    }

    /// A router with no routes and no steps.
    pub fn new() -> (r: Self)
        ensures
            r.wf(),
            forall|m: Method| #[trigger] r.routes(m) == Map::<Seq<Key>, Route<R, P, A>>::empty(),
            forall|m: Method| #[trigger] r.nodes(m) == set![Seq::<Key>::empty()],
            r.factory().pre_steps() == Seq::<P>::empty(),
            r.factory().after_steps() == Seq::<A>::empty(),
    {
        Router {
            middleware_factory: MiddlewareFactory::new(),
            get: HandlerSelect::new(),
            put: HandlerSelect::new(),
            delete: HandlerSelect::new(),
            post: HandlerSelect::new(),
            trace: HandlerSelect::new(),
            options: HandlerSelect::new(),
            connect: HandlerSelect::new(),
            patch: HandlerSelect::new(),
            head: HandlerSelect::new(),
        }
    }

    /// This router with `step` added after its pre-steps; routes already
    /// registered keep their steps.
    pub fn pre(self, step: P) -> (r: Self)
        ensures
            forall|m: Method| #[trigger] r.trie(m) == self.trie(m),
            r.factory().pre_steps() == self.factory().pre_steps().push(step),
            r.factory().after_steps() == self.factory().after_steps(),
    {
        Router {
            middleware_factory: self.middleware_factory.pre(step),
            get: self.get,
            put: self.put,
            delete: self.delete,
            post: self.post,
            trace: self.trace,
            options: self.options,
            connect: self.connect,
            patch: self.patch,
            head: self.head,
        }
    }

    /// This router with `step` added after its after-steps; routes already
    /// registered keep their steps.
    pub fn after(self, step: A) -> (r: Self)
        ensures
            forall|m: Method| #[trigger] r.trie(m) == self.trie(m),
            r.factory().pre_steps() == self.factory().pre_steps(),
            r.factory().after_steps() == self.factory().after_steps().push(step),
    {
        Router {
            middleware_factory: self.middleware_factory.after(step),
            get: self.get,
            put: self.put,
            delete: self.delete,
            post: self.post,
            trace: self.trace,
            options: self.options,
            connect: self.connect,
            patch: self.patch,
            head: self.head,
        }
    }

    fn insert_at(&mut self, m: Method, path: &str, route: Route<R, P, A>)
        requires
            old(self).wf(),
            !old(self).routes(m).contains_key(pattern_of(path@)),
        ensures
            final(self).wf(),
            final(self).factory() == old(self).factory(),
            final(self).routes(m) == old(self).routes(m).insert(pattern_of(path@), route),
            final(self).nodes(m) == old(self).nodes(m) + prefixes(pattern_of(path@)),
            forall|o: Method| o != m ==> #[trigger] final(self).trie(o) == old(self).trie(o),
    {
        assert(self.trie(m).wf());
        match m {
            Method::GET => self.get.insert(path, route),
            Method::PUT => self.put.insert(path, route),
            Method::DELETE => self.delete.insert(path, route),
            Method::POST => self.post.insert(path, route),
            Method::TRACE => self.trace.insert(path, route),
            Method::OPTIONS => self.options.insert(path, route),
            Method::CONNECT => self.connect.insert(path, route),
            Method::PATCH => self.patch.insert(path, route),
            Method::HEAD => self.head.insert(path, route),
        }
        assert forall|o: Method| #[trigger] self.trie(o).wf() by {
            if o != m {
                assert(self.trie(o) == old(self).trie(o));
                assert(old(self).trie(o).wf());
            }
        }
    }

    /// Registers `runner` for `m` at the pattern of `path`, wrapped in this
    /// router's current steps. The pattern must be free for `m`: a second
    /// registration at the same pattern is a configuration error.
    pub fn method(self, m: Method, path: &str, runner: R) -> (r: Self)
        requires
            self.wf(),
            !self.routes(m).contains_key(pattern_of(path@)),
        ensures
            r.wf(),
            r.factory() == self.factory(),
            r.routes(m) == self.routes(m).insert(pattern_of(path@), r.routes(m)[pattern_of(path@)]),
            self.factory().wraps_runner(runner, r.routes(m)[pattern_of(path@)]),
            r.nodes(m) == self.nodes(m) + prefixes(pattern_of(path@)),
            forall|o: Method| o != m ==> #[trigger] r.trie(o) == self.trie(o),
            resolve(r.nodes(m), r.routes(m), path@) == Some(r.routes(m)[pattern_of(path@)]),
    {
        let route = self.middleware_factory.build(Route::new(runner));
        let mut me = self;
        me.insert_at(m, path, route);
        proof {
            me.lemma_registered_route_found(m, path@);
        }
        me
    }

    /// A request for `m` at the very text a route was registered under
    /// (`{...}` segments included) reaches that route.
    pub proof fn lemma_registered_route_found(&self, m: Method, path: Seq<char>)
        requires
            self.wf(),
            self.routes(m).contains_key(pattern_of(path)),
        ensures
            resolve(self.nodes(m), self.routes(m), path) == Some(self.routes(m)[pattern_of(path)]),
    {
        assert(self.trie(m).wf());
        self.trie(m).lemma_registered_resolves(path);
    }

    /// Merges the routes of `child` into this router. Each of them is
    /// wrapped in this router's steps, so that on a merged route this
    /// router's pre-steps run before the child's, and its after-steps after
    /// the child's. The child's own factory is dropped.
    pub fn router(self, child: Router<R, P, A>) -> (r: Self)
        requires
            self.wf(),
            child.wf(),
            forall|m: Method| #[trigger] self.routes(m).dom().disjoint(child.routes(m).dom()),
        ensures
            r.wf(),
            Self::merged(self, child, r),
    {
        assert(self.trie(Method::GET).wf() && child.trie(Method::GET).wf());
        assert(self.trie(Method::PUT).wf() && child.trie(Method::PUT).wf());
        assert(self.trie(Method::DELETE).wf() && child.trie(Method::DELETE).wf());
        assert(self.trie(Method::POST).wf() && child.trie(Method::POST).wf());
        assert(self.trie(Method::TRACE).wf() && child.trie(Method::TRACE).wf());
        assert(self.trie(Method::OPTIONS).wf() && child.trie(Method::OPTIONS).wf());
        assert(self.trie(Method::CONNECT).wf() && child.trie(Method::CONNECT).wf());
        assert(self.trie(Method::PATCH).wf() && child.trie(Method::PATCH).wf());
        assert(self.trie(Method::HEAD).wf() && child.trie(Method::HEAD).wf());
        assert(self.routes(Method::GET).dom().disjoint(child.routes(Method::GET).dom()));
        assert(self.routes(Method::PUT).dom().disjoint(child.routes(Method::PUT).dom()));
        assert(self.routes(Method::DELETE).dom().disjoint(child.routes(Method::DELETE).dom()));
        assert(self.routes(Method::POST).dom().disjoint(child.routes(Method::POST).dom()));
        assert(self.routes(Method::TRACE).dom().disjoint(child.routes(Method::TRACE).dom()));
        assert(self.routes(Method::OPTIONS).dom().disjoint(child.routes(Method::OPTIONS).dom()));
        assert(self.routes(Method::CONNECT).dom().disjoint(child.routes(Method::CONNECT).dom()));
        assert(self.routes(Method::PATCH).dom().disjoint(child.routes(Method::PATCH).dom()));
        assert(self.routes(Method::HEAD).dom().disjoint(child.routes(Method::HEAD).dom()));
        let Router {
            middleware_factory,
            mut get,
            mut put,
            mut delete,
            mut post,
            mut trace,
            mut options,
            mut connect,
            mut patch,
            mut head,
        } = self;
        graft(&mut get, child.get, &middleware_factory);
        graft(&mut put, child.put, &middleware_factory);
        graft(&mut delete, child.delete, &middleware_factory);
        graft(&mut post, child.post, &middleware_factory);
        graft(&mut trace, child.trace, &middleware_factory);
        graft(&mut options, child.options, &middleware_factory);
        graft(&mut connect, child.connect, &middleware_factory);
        graft(&mut patch, child.patch, &middleware_factory);
        graft(&mut head, child.head, &middleware_factory);
        let r = Router {
            middleware_factory,
            get,
            put,
            delete,
            post,
            trace,
            options,
            connect,
            patch,
            head,
        };
        r
    }

    /// Whether some method has a route at the same pattern in both routers,
    /// which makes merging them a configuration error.
    pub fn conflicts_with(&self, child: &Self) -> (r: bool)
        requires
            self.wf(),
            child.wf(),
        ensures
            r == exists|m: Method| !(#[trigger] self.routes(m)).dom().disjoint(child.routes(m).dom()),
    {
        assert(self.trie(Method::GET).wf() && child.trie(Method::GET).wf());
        assert(self.trie(Method::PUT).wf() && child.trie(Method::PUT).wf());
        assert(self.trie(Method::DELETE).wf() && child.trie(Method::DELETE).wf());
        assert(self.trie(Method::POST).wf() && child.trie(Method::POST).wf());
        assert(self.trie(Method::TRACE).wf() && child.trie(Method::TRACE).wf());
        assert(self.trie(Method::OPTIONS).wf() && child.trie(Method::OPTIONS).wf());
        assert(self.trie(Method::CONNECT).wf() && child.trie(Method::CONNECT).wf());
        assert(self.trie(Method::PATCH).wf() && child.trie(Method::PATCH).wf());
        assert(self.trie(Method::HEAD).wf() && child.trie(Method::HEAD).wf());
        let r = self.get.overlaps(&child.get) || self.put.overlaps(&child.put) || self.delete.overlaps(
            &child.delete,
        ) || self.post.overlaps(&child.post) || self.trace.overlaps(&child.trace)
            || self.options.overlaps(&child.options) || self.connect.overlaps(&child.connect)
            || self.patch.overlaps(&child.patch) || self.head.overlaps(&child.head);
        proof {
            if !r {
                assert forall|m: Method| (#[trigger] self.routes(m)).dom().disjoint(child.routes(m).dom()) by {
                    match m {
                        Method::GET => {},
                        _ => {},
                    }
                }
            } else {
                if !self.routes(Method::GET).dom().disjoint(child.routes(Method::GET).dom()) {
                } else if !self.routes(Method::PUT).dom().disjoint(child.routes(Method::PUT).dom()) {
                } else if !self.routes(Method::DELETE).dom().disjoint(child.routes(Method::DELETE).dom()) {
                } else if !self.routes(Method::POST).dom().disjoint(child.routes(Method::POST).dom()) {
                } else if !self.routes(Method::TRACE).dom().disjoint(child.routes(Method::TRACE).dom()) {
                } else if !self.routes(Method::OPTIONS).dom().disjoint(child.routes(Method::OPTIONS).dom()) {
                } else if !self.routes(Method::CONNECT).dom().disjoint(child.routes(Method::CONNECT).dom()) {
                } else if !self.routes(Method::PATCH).dom().disjoint(child.routes(Method::PATCH).dom()) {
                } else {
                    assert(!self.routes(Method::HEAD).dom().disjoint(child.routes(Method::HEAD).dom()));
                }
            }
        }
        r
    }

    /// Whether a route is registered for `m` at the pattern of `path`.
    pub fn has_route(&self, m: Method, path: &str) -> (r: bool)
        requires
            self.wf(),
        ensures
            r == self.routes(m).contains_key(pattern_of(path@)),
    {
        assert(self.trie(m).wf());
        let t = match m {
            Method::GET => &self.get,
            Method::PUT => &self.put,
            Method::DELETE => &self.delete,
            Method::POST => &self.post,
            Method::TRACE => &self.trace,
            Method::OPTIONS => &self.options,
            Method::CONNECT => &self.connect,
            Method::PATCH => &self.patch,
            Method::HEAD => &self.head,
        };
        t.contains(path)
    }

    /// The route that a request for `m` at `path` reaches, if any.
    pub fn find_route(&self, m: Method, path: &str) -> (r: Option<&Route<R, P, A>>)
        requires
            self.wf(),
        ensures
            resolve(self.nodes(m), self.routes(m), path@) == match r {
                Some(h) => Some(*h),
                None => None,
            },
    {
        assert(self.trie(m).wf());
        match m {
            Method::GET => self.get.get(path),
            Method::PUT => self.put.get(path),
            Method::DELETE => self.delete.get(path),
            Method::POST => self.post.get(path),
            Method::TRACE => self.trace.get(path),
            Method::OPTIONS => self.options.get(path),
            Method::CONNECT => self.connect.get(path),
            Method::PATCH => self.patch.get(path),
            Method::HEAD => self.head.get(path),
        }
    }
}

impl<R: Clone, P: Copy, A: Copy> Router<R, P, A> {
    /// Registers a copy of `runner` at the pattern of `path` under every
    /// method, wrapped in this router's current steps.
    pub fn all(self, path: &str, runner: R) -> (r: Self)
        requires
            self.wf(),
            forall|m: Method| !(#[trigger] self.routes(m)).contains_key(pattern_of(path@)),
        ensures
            r.wf(),
            r.factory() == self.factory(),
            forall|m: Method| #[trigger]
                r.routes(m) == self.routes(m).insert(pattern_of(path@), r.routes(m)[pattern_of(path@)]),
            forall|m: Method| #[trigger]
                r.nodes(m) == self.nodes(m) + prefixes(pattern_of(path@)),
            forall|m: Method| {
                let route = #[trigger] r.routes(m)[pattern_of(path@)];
                &&& route.pre@ == self.factory().pre_steps()
                &&& route.after@ == self.factory().after_steps()
                &&& cloned(runner, route.runner)
            },
            forall|m: Method| #[trigger]
                resolve(r.nodes(m), r.routes(m), path@) == Some(r.routes(m)[pattern_of(path@)]),
    {
        let ghost pat = pattern_of(path@);
        assert(!self.routes(Method::GET).contains_key(pat));
        assert(!self.routes(Method::PUT).contains_key(pat));
        assert(!self.routes(Method::DELETE).contains_key(pat));
        assert(!self.routes(Method::POST).contains_key(pat));
        assert(!self.routes(Method::TRACE).contains_key(pat));
        assert(!self.routes(Method::OPTIONS).contains_key(pat));
        assert(!self.routes(Method::CONNECT).contains_key(pat));
        assert(!self.routes(Method::PATCH).contains_key(pat));
        assert(!self.routes(Method::HEAD).contains_key(pat));
        let r0 = self;
        assert(!r0.routes(Method::GET).contains_key(pat));
        let r1 = r0.method(Method::GET, path, runner.clone());
        assert(r1.trie(Method::PUT) == r0.trie(Method::PUT));
        assert(r1.trie(Method::DELETE) == r0.trie(Method::DELETE));
        assert(r1.trie(Method::POST) == r0.trie(Method::POST));
        assert(r1.trie(Method::TRACE) == r0.trie(Method::TRACE));
        assert(r1.trie(Method::OPTIONS) == r0.trie(Method::OPTIONS));
        assert(r1.trie(Method::CONNECT) == r0.trie(Method::CONNECT));
        assert(r1.trie(Method::PATCH) == r0.trie(Method::PATCH));
        assert(r1.trie(Method::HEAD) == r0.trie(Method::HEAD));
        assert(!r1.routes(Method::PUT).contains_key(pat));
        let r2 = r1.method(Method::PUT, path, runner.clone());
        assert(r2.trie(Method::DELETE) == r1.trie(Method::DELETE));
        assert(r2.trie(Method::POST) == r1.trie(Method::POST));
        assert(r2.trie(Method::TRACE) == r1.trie(Method::TRACE));
        assert(r2.trie(Method::OPTIONS) == r1.trie(Method::OPTIONS));
        assert(r2.trie(Method::CONNECT) == r1.trie(Method::CONNECT));
        assert(r2.trie(Method::PATCH) == r1.trie(Method::PATCH));
        assert(r2.trie(Method::HEAD) == r1.trie(Method::HEAD));
        assert(!r2.routes(Method::DELETE).contains_key(pat));
        let r3 = r2.method(Method::DELETE, path, runner.clone());
        assert(r3.trie(Method::POST) == r2.trie(Method::POST));
        assert(r3.trie(Method::TRACE) == r2.trie(Method::TRACE));
        assert(r3.trie(Method::OPTIONS) == r2.trie(Method::OPTIONS));
        assert(r3.trie(Method::CONNECT) == r2.trie(Method::CONNECT));
        assert(r3.trie(Method::PATCH) == r2.trie(Method::PATCH));
        assert(r3.trie(Method::HEAD) == r2.trie(Method::HEAD));
        assert(!r3.routes(Method::POST).contains_key(pat));
        let r4 = r3.method(Method::POST, path, runner.clone());
        assert(r4.trie(Method::TRACE) == r3.trie(Method::TRACE));
        assert(r4.trie(Method::OPTIONS) == r3.trie(Method::OPTIONS));
        assert(r4.trie(Method::CONNECT) == r3.trie(Method::CONNECT));
        assert(r4.trie(Method::PATCH) == r3.trie(Method::PATCH));
        assert(r4.trie(Method::HEAD) == r3.trie(Method::HEAD));
        assert(!r4.routes(Method::TRACE).contains_key(pat));
        let r5 = r4.method(Method::TRACE, path, runner.clone());
        assert(r5.trie(Method::OPTIONS) == r4.trie(Method::OPTIONS));
        assert(r5.trie(Method::CONNECT) == r4.trie(Method::CONNECT));
        assert(r5.trie(Method::PATCH) == r4.trie(Method::PATCH));
        assert(r5.trie(Method::HEAD) == r4.trie(Method::HEAD));
        assert(!r5.routes(Method::OPTIONS).contains_key(pat));
        let r6 = r5.method(Method::OPTIONS, path, runner.clone());
        assert(r6.trie(Method::CONNECT) == r5.trie(Method::CONNECT));
        assert(r6.trie(Method::PATCH) == r5.trie(Method::PATCH));
        assert(r6.trie(Method::HEAD) == r5.trie(Method::HEAD));
        assert(!r6.routes(Method::CONNECT).contains_key(pat));
        let r7 = r6.method(Method::CONNECT, path, runner.clone());
        assert(r7.trie(Method::PATCH) == r6.trie(Method::PATCH));
        assert(r7.trie(Method::HEAD) == r6.trie(Method::HEAD));
        assert(!r7.routes(Method::PATCH).contains_key(pat));
        let r8 = r7.method(Method::PATCH, path, runner.clone());
        assert(r8.trie(Method::HEAD) == r7.trie(Method::HEAD));
        assert(!r8.routes(Method::HEAD).contains_key(pat));
        let r9 = r8.method(Method::HEAD, path, runner);
        let r = r9;
        assert forall|m: Method| #[trigger]
            resolve(r.nodes(m), r.routes(m), path@) == Some(r.routes(m)[pattern_of(path@)]) by {
            r.lemma_registered_route_found(m, path@);
        }
        r
    }
}

/// Wraps every route of `theirs` in the steps of `f` and moves it into
/// `mine`.
fn graft<R, P: Copy, A: Copy>(
    mine: &mut HandlerSelect<Route<R, P, A>>,
    theirs: HandlerSelect<Route<R, P, A>>,
    f: &MiddlewareFactory<P, A>,
)
    requires
        old(mine).wf(),
        theirs.wf(),
        old(mine).spec_routes().dom().disjoint(theirs.spec_routes().dom()),
    ensures
        final(mine).wf(),
        final(mine).spec_nodes() == old(mine).spec_nodes() + theirs.spec_nodes(),
        forall|q: Seq<Key>| #[trigger]
            final(mine).spec_routes().contains_key(q) == (old(mine).spec_routes().contains_key(q)
                || theirs.spec_routes().contains_key(q)),
        forall|q: Seq<Key>| #[trigger]
            old(mine).spec_routes().contains_key(q) ==> final(mine).spec_routes()[q]
                == old(mine).spec_routes()[q],
        forall|q: Seq<Key>| #[trigger]
            theirs.spec_routes().contains_key(q) ==> f.wraps(
                theirs.spec_routes()[q],
                final(mine).spec_routes()[q],
            ),
{
    let mut theirs = theirs;
    let wrap = |r: Route<R, P, A>| -> (o: Route<R, P, A>)
        ensures
            f.wraps(r, o),
        { f.build(r) };
    theirs.apply(wrap);
    mine.extend(theirs);
}

} // verus!
