//! The application: the table of routes, the shared resources, and the
//! choice of the handler that answers a request.

use crate::app::resource_map::ResourceMap;
use crate::app::route_definition::RouteDefinition;
use crate::http::error::ParseError;
use crate::http::method::HttpMethod;
use crate::http::path::tokens_match;
use crate::http::request::{blank_request, parsed, HttpRequest, RequestModel};
use crate::http::response::{rendered, HttpResponse, ResponseModel};
use crate::table::{
    distinct_names, inserted, lemma_inserted_keeps_names_distinct, lemma_inserted_twice,
    lemma_lookup_inserted_same, lookup, names_of, position,
};
use crate::text::{lemma_index_of, lemma_index_of_is};
use vstd::prelude::*;
use vstd::string::*;

verus! {

/// A route by what it stands for: its method and the tokens of its pattern.
pub type RouteKey = (HttpMethod, Seq<Seq<char>>);

/// Whether a route serves a request: the methods are the same and the
/// request's path fits the route's pattern.
pub open spec fn serves(key: RouteKey, method: HttpMethod, path: Seq<Seq<char>>) -> bool {
    key.0 == method && tokens_match(path, key.1)
}

/// The place of the first route that serves a request with this method and
/// path, or `routes.len()` where none does.
pub open spec fn selected<H>(routes: Seq<(RouteKey, H)>, method: HttpMethod, path: Seq<Seq<char>>) -> nat
    decreases routes.len(),
{
    if routes.len() == 0 {
        0
    } else if serves(routes[0].0, method, path) {
        0
    } else {
        1 + selected(routes.drop_first(), method, path)
    }
}

/// A place `i` whose route serves the request, with no such route before
/// it, is the selected one.
pub proof fn lemma_selected_is<H>(
    routes: Seq<(RouteKey, H)>,
    method: HttpMethod,
    path: Seq<Seq<char>>,
    i: int,
)
    requires
        0 <= i <= routes.len(),
        forall|j: int| 0 <= j < i ==> !serves(#[trigger] routes[j].0, method, path),
        i < routes.len() ==> serves(routes[i].0, method, path),
    ensures
        selected(routes, method, path) == i,
    decreases routes.len(),
{
    if routes.len() != 0 && i > 0 {
        let rest = routes.drop_first();
        assert(!serves(routes[0].0, method, path));
        assert forall|j: int| 0 <= j < i - 1 implies !serves(#[trigger] rest[j].0, method, path) by {
            assert(rest[j] == routes[j + 1]);
        }
        lemma_selected_is(rest, method, path, i - 1);
    }
}

/// The selected place lies within the table or just past it; the route
/// there serves the request, and no route before it does.
pub proof fn lemma_selected<H>(routes: Seq<(RouteKey, H)>, method: HttpMethod, path: Seq<Seq<char>>)
    ensures
        selected(routes, method, path) <= routes.len(),
        forall|j: int|
            0 <= j < selected(routes, method, path) ==> !serves(
                #[trigger] routes[j].0,
                method,
                path,
            ),
        selected(routes, method, path) < routes.len() ==> serves(
            routes[selected(routes, method, path) as int].0,
            method,
            path,
        ),
    decreases routes.len(),
{
    if routes.len() != 0 && !serves(routes[0].0, method, path) {
        let rest = routes.drop_first();
        lemma_selected(rest, method, path);
        assert forall|j: int| 0 <= j < selected(routes, method, path) implies !serves(
            #[trigger] routes[j].0,
            method,
            path,
        ) by {
            if j > 0 {
                assert(routes[j] == rest[j - 1]);
            }
        }
        if selected(routes, method, path) < routes.len() {
            assert(routes[selected(routes, method, path) as int] == rest[selected(
                rest,
                method,
                path,
            ) as int]);
        }
    }
}

/// Whether no route of the table but the one called `key` serves a request
/// with this method and path.
pub open spec fn only_served_by<H>(
    routes: Seq<(RouteKey, H)>,
    key: RouteKey,
    method: HttpMethod,
    path: Seq<Seq<char>>,
) -> bool {
    &&& serves(key, method, path)
    &&& forall|j: int|
        0 <= j < routes.len() && (#[trigger] routes[j]).0 != key ==> !serves(
            routes[j].0,
            method,
            path,
        )
}

/// Registering a second handler under a route leaves the table as if only
/// the second had been registered. The first is gone: the second is what
/// is found under the route, and the one entry of that route holds it. A
/// request that this route serves and no other route of the table does is
/// answered by the second handler. Where an earlier route serves the
/// request too, that route answers it, before and after.
pub proof fn lemma_second_registration_wins<H>(
    routes: Seq<(RouteKey, H)>,
    key: RouteKey,
    first: H,
    second: H,
    method: HttpMethod,
    path: Seq<Seq<char>>,
)
    requires
        distinct_names(routes),
    ensures
        inserted(inserted(routes, key, first), key, second) == inserted(routes, key, second),
        lookup(inserted(inserted(routes, key, first), key, second), key) == Some(second),
        ({
            let twice = inserted(inserted(routes, key, first), key, second);
            forall|i: int|
                0 <= i < twice.len() && (#[trigger] twice[i]).0 == key ==> twice[i].1 == second
        }),
        ({
            let twice = inserted(inserted(routes, key, first), key, second);
            let i = selected(twice, method, path);
            only_served_by(routes, key, method, path) ==> i < twice.len() && twice[i as int] == (
                key,
                second,
            )
        }),
        ({
            let twice = inserted(inserted(routes, key, first), key, second);
            let i = selected(twice, method, path);
            let before = selected(routes, method, path);
            before < position(routes, key) ==> i == before && twice[i as int] == routes[before as int]
        }),
{
    let twice = inserted(inserted(routes, key, first), key, second);
    lemma_inserted_twice(routes, key, first, second);
    lemma_lookup_inserted_same(routes, key, second);
    lemma_inserted_keeps_names_distinct(routes, key, second);
    lemma_selected(twice, method, path);
    lemma_selected(routes, method, path);
    lemma_index_of(names_of(twice), key);
    lemma_index_of(names_of(routes), key);
    let at = position(twice, key) as int;
    let old_at = position(routes, key) as int;
    assert(at < twice.len());
    assert(names_of(twice)[at] == key);
    assert(twice[at] == (key, second));
    if old_at < routes.len() {
        assert(names_of(twice) =~= names_of(routes));
    } else {
        assert(names_of(twice) =~= names_of(routes).push(key));
        lemma_index_of_is(names_of(twice), key, old_at);
    }
    assert(at == old_at);
    assert forall|i: int| 0 <= i < twice.len() && i != at implies #[trigger] twice[i]
        == routes[i] && twice[i].0 != key by {
        assert(names_of(twice)[i] == twice[i].0);
    }
    assert forall|i: int| 0 <= i < twice.len() && (#[trigger] twice[i]).0 == key implies twice[i].1
        == second by {
        if i != at {
            assert(twice[i].0 != key);
        }
    }
    let i = selected(twice, method, path) as int;
    if only_served_by(routes, key, method, path) {
        if i != at {
            if i < twice.len() {
                assert(twice[i] == routes[i]);
                assert(serves(routes[i].0, method, path));
            } else {
                assert(serves(twice[at].0, method, path));
            }
            if i > at {
                assert(!serves(twice[at].0, method, path));
            }
        }
    }
    let before = selected(routes, method, path) as int;
    if before < old_at {
        assert(twice[before] == routes[before]);
        assert forall|j: int| 0 <= j < before implies !serves(
            #[trigger] twice[j].0,
            method,
            path,
        ) by {
            assert(twice[j] == routes[j]);
        }
        lemma_selected_is(twice, method, path, before);
    }
}

/// The response to a request that no route serves.
pub open spec fn not_found() -> ResponseModel {
    ResponseModel {
        status_code: 404,
        status_message: "NOT FOUND"@,
        headers: Seq::empty(),
        body: None,
    }
}

/// Whether a handler can be called with every request and every pool.
pub open spec fn accepts_all<R, H: Fn(HttpRequest, &ResourceMap<R>) -> HttpResponse>(
    handler: H,
) -> bool {
    forall|req: HttpRequest, pool: &ResourceMap<R>| #[trigger] call_requires(handler, (req, pool))
}

/// What a vector of registered routes stands for.
pub open spec fn routes_view<H>(routes: Seq<(RouteDefinition, H)>) -> Seq<(RouteKey, H)> {
    routes.map_values(|e: (RouteDefinition, H)| (e.0@, e.1))
}

/// An application: handlers by route, in the order in which their routes
/// were first registered, and the resources they share.
pub struct App<R, H: Fn(HttpRequest, &ResourceMap<R>) -> HttpResponse> {
    routes: Vec<(RouteDefinition, H)>,
    resources: ResourceMap<R>,
}

impl<R, H: Fn(HttpRequest, &ResourceMap<R>) -> HttpResponse> App<R, H> {
    /// The registered routes with their handlers, in order.
    pub closed spec fn routes(&self) -> Seq<(RouteKey, H)> {
        routes_view(self.routes@)
    }

    /// The shared resources.
    pub closed spec fn resources(&self) -> ResourceMap<R> {
        self.resources
    }

    #[verifier::type_invariant]
    spec fn valid(&self) -> bool {
        &&& distinct_names(self.routes())
        &&& forall|i: int|
            0 <= i < self.routes@.len() ==> accepts_all::<R, H>((#[trigger] self.routes@[i]).1)
    }

    /// Whether `resp` is an answer of this application to `req`: what the
    /// handler of the first route that serves the request returns for it,
    /// or, where no route serves it, a response that says so.
    pub open spec fn answers(&self, req: HttpRequest, resp: HttpResponse) -> bool {
        let i = selected(self.routes(), req@.method, req@.path);
        if i < self.routes().len() {
            call_ensures(self.routes()[i as int].1, (req, &self.resources()), resp)
        } else {
            resp@ == not_found()
        }
    }

    /// An application without routes and without resources.
    pub fn new() -> (r: Self)
        ensures
            r.routes() == Seq::<(RouteKey, H)>::empty(),
            r.resources()@ == Seq::<(Seq<char>, R)>::empty(),
    {
        let r = App { routes: Vec::new(), resources: ResourceMap::new() };
        proof {
            assert(r.routes() =~= Seq::<(RouteKey, H)>::empty());
            assert(names_of(r.routes()) =~= Seq::<RouteKey>::empty());
        }
        r
    }

    /// The place of the route `definition` in the table, or the number of
    /// routes where it is not registered.
    fn find(routes: &Vec<(RouteDefinition, H)>, definition: &RouteDefinition) -> (i: usize)
        ensures
            i == position(routes_view(routes@), definition@),
            i <= routes@.len(),
    {
        let mut i: usize = 0;
        while i < routes.len() && !(routes[i].0 == *definition)
            invariant
                i <= routes.len(),
                forall|j: int| 0 <= j < i ==> names_of(routes_view(routes@))[j] != definition@,
            decreases routes.len() - i,
        {
            i += 1;
        }
        proof {
            lemma_index_of_is(names_of(routes_view(routes@)), definition@, i as int);
        }
        i
    }

    /// Registers `handler` under `definition` and hands the application
    /// on. A route that was registered before keeps its place and gets the
    /// new handler; a new route goes after the others.
    pub fn route(&mut self, definition: RouteDefinition, handler: H) -> (r: &mut Self)
        requires
            accepts_all::<R, H>(handler),
        ensures
            r.routes() == inserted(old(self).routes(), definition@, handler),
            distinct_names(r.routes()),
            r.resources() == old(self).resources(),
            *final(self) == *final(r),
    {
        proof {
            use_type_invariant(&*self);
            lemma_inserted_keeps_names_distinct(self.routes(), definition@, handler);
        }
        let mut routes: Vec<(RouteDefinition, H)> = Vec::new();
        proof {
            assert(names_of(routes_view(routes@)) =~= Seq::<RouteKey>::empty());
        }
        core::mem::swap(&mut self.routes, &mut routes);
        let i: usize = Self::find(&routes, &definition);
        if i < routes.len() {
            routes.set(i, (definition, handler));
        } else {
            routes.push((definition, handler));
        }
        proof {
            assert(routes_view(routes@) =~= inserted(old(self).routes(), definition@, handler));
        }
        self.routes = routes;
        self
    }

    /// Puts `value` among the shared resources under `name` and hands the
    /// application on.
    pub fn resource(&mut self, name: String, value: R) -> (r: &mut Self)
        ensures
            r.resources()@ == inserted(old(self).resources()@, name@, value),
            r.routes() == old(self).routes(),
            *final(self) == *final(r),
    {
        proof {
            use_type_invariant(&*self);
        }
        let mut pool: ResourceMap<R> = ResourceMap::new();
        core::mem::swap(&mut self.resources, &mut pool);
        pool.add_resource(name, value);
        self.resources = pool;
        self
    }

    /// Calls the handler registered under `definition` with `req`, lets
    /// its response go, and hands the application on unchanged.
    pub fn call(&mut self, definition: RouteDefinition, req: HttpRequest) -> (r: &mut Self)
        requires
            position(old(self).routes(), definition@) < old(self).routes().len(),
        ensures
            *r == *old(self),
            *final(self) == *final(r),
    {
        proof {
            use_type_invariant(&*self);
        }
        let i: usize = Self::find(&self.routes, &definition);
        let handler: &H = &self.routes[i].1;
        let _ = handler(req, &self.resources);
        self
    }

    /// Answers a request: with what the handler of the first route that
    /// serves it returns, or with status 404 where no route serves it.
    pub fn dispatch(&self, req: HttpRequest) -> (resp: HttpResponse)
        ensures
            self.answers(req, resp),
    {
        proof {
            use_type_invariant(self);
        }
        let mut i: usize = 0;
        while i < self.routes.len()
            invariant
                i <= self.routes.len(),
                forall|k: int|
                    0 <= k < self.routes@.len() ==> accepts_all::<R, H>(
                        (#[trigger] self.routes@[k]).1,
                    ),
                forall|j: int|
                    0 <= j < i ==> !serves(#[trigger] self.routes()[j].0, req@.method, req@.path),
            decreases self.routes.len() - i,
        {
            let definition: &RouteDefinition = &self.routes[i].0;
            if definition.method == req.method && req.path.does_match(&definition.path) {
                proof {
                    assert(self.routes()[i as int].0 == definition@);
                    lemma_selected_is(self.routes(), req@.method, req@.path, i as int);
                }
                let handler: &H = &self.routes[i].1;
                return handler(req, &self.resources);
            }
            proof {
                assert(self.routes()[i as int].0 == definition@);
            }
            i += 1;
        }
        proof {
            lemma_selected_is(self.routes(), req@.method, req@.path, i as int);
        }
        let mut resp: HttpResponse = HttpResponse::new();
        resp.with_status_code(404).with_status_msg("NOT FOUND");
        resp
    }

    /// Handles one connection: reads a request from its bytes, answers it,
    /// and renders the answer as the text to send back. Where the bytes
    /// cannot be read as a request, there is no answer but the reason.
    pub fn handle_connection(&self, stream: &[u8]) -> (r: Result<String, ParseError>)
        ensures
            match r {
                Ok(text) => exists|req: HttpRequest, resp: HttpResponse|
                    {
                        &&& parsed(blank_request(), stream@) is Ok
                        &&& parsed(blank_request(), stream@)->Ok_0.0 == req@
                        &&& #[trigger] self.answers(req, resp)
                        &&& text@ == rendered(resp@)
                    },
                Err(e) => parsed(blank_request(), stream@) == Err::<(RequestModel, nat), ParseError>(
                    e,
                ),
            },
    {
        let mut req: HttpRequest = HttpRequest::new();
        match req.parse(stream) {
            Err(e) => Err(e),
            Ok(_) => {
                let ghost asked = req;
                let resp: HttpResponse = self.dispatch(req);
                let text: String = resp.prepare();
                proof {
                    assert(self.answers(asked, resp));
                }
                Ok(text)
            },
        }
    }
}

/// An application in which a route was registered twice answers a request
/// that only this route serves with what the second handler returns for
/// that request and the application's resources.
pub proof fn lemma_second_handler_answers<R, H: Fn(HttpRequest, &ResourceMap<R>) -> HttpResponse>(
    app: App<R, H>,
    routes: Seq<(RouteKey, H)>,
    key: RouteKey,
    first: H,
    second: H,
    req: HttpRequest,
    resp: HttpResponse,
)
    requires
        distinct_names(routes),
        app.routes() == inserted(inserted(routes, key, first), key, second),
        only_served_by(routes, key, req@.method, req@.path),
        app.answers(req, resp),
    ensures
        call_ensures(second, (req, &app.resources()), resp),
{
    lemma_second_registration_wins(routes, key, first, second, req@.method, req@.path);
}

} // verus!
