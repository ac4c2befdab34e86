//! Request definitions and their resolution.

use crate::dict::{fresh_names, Dict, Headers, Params};
use crate::environment::Environment;
use crate::error::{Failure, KuiperError, KuiperResult};
use crate::inherit::{
    gather_headers, lemma_same_layers, scope_layers, scope_layers_of, with_inherited,
    HeaderFile,
};
use crate::interpolate::{
    failure_of, interpolates, lemma_failure_of, lemma_plain_text, open_marker,
};
use crate::json::{json_body, json_text, parse, render};
use crate::text::occurs_in;
use vstd::prelude::*;

verus! {

/// One HTTP request: as it is read from its definition, with placeholders,
/// or resolved, with inherited headers and every placeholder replaced.
#[derive(Clone, Debug, PartialEq, Eq)]
pub struct Request {
    name: String,
    uri: String,
    headers: Headers,
    params: Params,
    method: String,
    body: Option<serde_json::Value>,
}

/// Mathematical model of a `Request`. The two lists of names give the order
/// in which the request holds its headers and its parameters.
pub struct RequestView {
    pub name: Seq<char>,
    pub uri: Seq<char>,
    pub headers: Map<Seq<char>, Option<Seq<char>>>,
    pub header_names: Seq<Seq<char>>,
    pub params: Map<Seq<char>, Seq<char>>,
    pub param_names: Seq<Seq<char>>,
    pub method: Seq<char>,
    pub body: Option<serde_json::Value>,
}

impl View for Request {
    type V = RequestView;

    closed spec fn view(&self) -> RequestView {
        RequestView {
            name: self.name@,
            uri: self.uri@,
            headers: self.headers@,
            header_names: self.headers.names(),
            params: self.params@,
            param_names: self.params.names(),
            method: self.method@,
            body: self.body,
        }
    }
}

/// Whether `after` is what interpolation may make of a header's value: no
/// value stays no value, a text is interpolated.
pub open spec fn value_interpolates(
    before: Option<Seq<char>>,
    env: Map<Seq<char>, Seq<char>>,
    after: Option<Seq<char>>,
) -> bool {
    match before {
        None => after is None,
        Some(text) => after matches Some(result) && interpolates(
            text,
            env,
            Ok::<Seq<char>, Failure>(result),
        ),
    }
}

/// Whether `after` is what interpolation may make of a body: the body's JSON
/// text is interpolated and read again.
pub open spec fn body_interpolates(
    before: Option<serde_json::Value>,
    env: Map<Seq<char>, Seq<char>>,
    after: Option<serde_json::Value>,
) -> bool {
    match before {
        None => after is None,
        Some(body) => exists|text: Seq<char>|
            interpolates(json_text(body), env, Ok::<Seq<char>, Failure>(text))
                && #[trigger] json_body(text) == Some(after),
    }
}

/// Whether the interpolated text of `body` may fail to be JSON.
pub open spec fn body_may_break(body: serde_json::Value, env: Map<Seq<char>, Seq<char>>) -> bool {
    exists|text: Seq<char>|
        interpolates(json_text(body), env, Ok::<Seq<char>, Failure>(text))
            && #[trigger] json_body(text) is None
}

/// The failure of the first header value, from index `from` on in the order
/// of `names`, whose interpolation fails.
pub open spec fn headers_failure(
    names: Seq<Seq<char>>,
    headers: Map<Seq<char>, Option<Seq<char>>>,
    env: Map<Seq<char>, Seq<char>>,
    from: int,
) -> Option<Failure>
    decreases names.len() - from,
{
    if from < 0 || from >= names.len() {
        None
    } else {
        let here = match headers[names[from]] {
            Some(text) => failure_of(text, env),
            None => None,
        };
        if here is Some {
            here
        } else {
            headers_failure(names, headers, env, from + 1)
        }
    }
}

/// The failure of the first parameter value, from index `from` on in the
/// order of `names`, whose interpolation fails.
pub open spec fn params_failure(
    names: Seq<Seq<char>>,
    params: Map<Seq<char>, Seq<char>>,
    env: Map<Seq<char>, Seq<char>>,
    from: int,
) -> Option<Failure>
    decreases names.len() - from,
{
    if from < 0 || from >= names.len() {
        None
    } else {
        let here = failure_of(params[names[from]], env);
        if here is Some {
            here
        } else {
            params_failure(names, params, env, from + 1)
        }
    }
}

/// The failure that ends the interpolation of a request, if there is one:
/// the first among the address, the header values, the parameter values and
/// the body's text, in this order.
pub open spec fn request_failure(def: RequestView, env: Map<Seq<char>, Seq<char>>) -> Option<
    Failure,
> {
    if failure_of(def.uri, env) is Some {
        failure_of(def.uri, env)
    } else if headers_failure(def.header_names, def.headers, env, 0) is Some {
        headers_failure(def.header_names, def.headers, env, 0)
    } else if params_failure(def.param_names, def.params, env, 0) is Some {
        params_failure(def.param_names, def.params, env, 0)
    } else {
        match def.body {
            Some(body) => failure_of(json_text(body), env),
            None => None,
        }
    }
}

/// Whether `after` is a possible interpolation of `before`: name and method
/// are kept, address, header values and parameter values are interpolated
/// one by one, and so is the body.
pub open spec fn interpolated(
    before: RequestView,
    env: Map<Seq<char>, Seq<char>>,
    after: RequestView,
) -> bool {
    &&& after.name == before.name
    &&& after.method == before.method
    &&& interpolates(before.uri, env, Ok::<Seq<char>, Failure>(after.uri))
    &&& after.header_names == before.header_names
    &&& after.headers.dom() == before.headers.dom()
    &&& forall|k: Seq<char>|
        before.headers.contains_key(k) ==> value_interpolates(
            before.headers[k],
            env,
            #[trigger] after.headers[k],
        )
    &&& after.param_names == before.param_names
    &&& after.params.dom() == before.params.dom()
    &&& forall|k: Seq<char>|
        before.params.contains_key(k) ==> interpolates(
            before.params[k],
            env,
            Ok::<Seq<char>, Failure>(#[trigger] after.params[k]),
        )
    &&& body_interpolates(before.body, env, after.body)
}

/// The definition `def` with the headers that it inherits from the
/// directories above its file, as far as `files` holds their header files.
pub open spec fn scoped(def: RequestView, files: Seq<HeaderFile>) -> RequestView {
    with_inherited(def, scope_layers_of(def.name, files))
}

/// The headers among the first `upto` of `names` that have a value, each
/// with its value, in the order of `names`.
pub open spec fn present_headers(
    names: Seq<Seq<char>>,
    headers: Map<Seq<char>, Option<Seq<char>>>,
    upto: int,
) -> Seq<(Seq<char>, Seq<char>)>
    decreases upto,
{
    if upto <= 0 {
        Seq::empty()
    } else {
        let before = present_headers(names, headers, upto - 1);
        match headers[names[upto - 1]] {
            Some(value) => before.push((names[upto - 1], value)),
            None => before,
        }
    }
}

/// The texts of a list of pairs of strings.
pub open spec fn pairs(list: Seq<(String, String)>) -> Seq<(Seq<char>, Seq<char>)> {
    list.map_values(|p: (String, String)| (p.0@, p.1@))
}

/// A body whose JSON text holds no open marker is not changed by
/// interpolation: what the request gets is that very text, read again.
pub proof fn lemma_plain_body(
    body: serde_json::Value,
    env: Map<Seq<char>, Seq<char>>,
    after: Option<serde_json::Value>,
)
    requires
        !occurs_in(json_text(body), open_marker()),
    ensures
        body_interpolates(Some(body), env, after) <==> json_body(json_text(body)) == Some(after),
        body_may_break(body, env) <==> json_body(json_text(body)) is None,
{
    let text = json_text(body);
    lemma_plain_text(text, env, Ok::<Seq<char>, Failure>(text));
    assert forall|other: Seq<char>|
        interpolates(text, env, Ok::<Seq<char>, Failure>(other)) implies other == text by {
        lemma_plain_text(text, env, Ok::<Seq<char>, Failure>(other));
    }
    if json_body(text) == Some(after) {
        assert(body_interpolates(Some(body), env, after));
    }
    if json_body(text) is None {
        assert(body_may_break(body, env));
    }
}

impl Request {
    /// A request made of the given parts.
    pub fn new(
        name: String,
        uri: String,
        headers: Headers,
        params: Params,
        method: String,
        body: Option<serde_json::Value>,
    ) -> (request: Self)
        ensures
            request@ == (RequestView {
                name: name@,
                uri: uri@,
                headers: headers@,
                header_names: headers.names(),
                params: params@,
                param_names: params.names(),
                method: method@,
                body: body,
            }),
    {
        Request { name, uri, headers, params, method, body }
    }

    /// The name under which the request was found.
    pub fn name(&self) -> (name: &str)
        ensures
            name@ == self@.name,
    {
        self.name.as_str()
    }

    /// The HTTP verb.
    pub fn method(&self) -> (method: &str)
        ensures
            method@ == self@.method,
    {
        self.method.as_str()
    }

    /// The address the request goes to.
    pub fn uri(&self) -> (uri: &str)
        ensures
            uri@ == self@.uri,
    {
        self.uri.as_str()
    }

    /// The headers.
    pub fn headers(&self) -> (headers: &Headers)
        ensures
            headers@ == self@.headers,
            headers.names() == self@.header_names,
    {
        &self.headers
    }

    /// The body, if the request has one.
    pub fn body(&self) -> (body: Option<&serde_json::Value>)
        ensures
            match body {
                Some(value) => self@.body == Some(*value),
                None => self@.body is None,
            },
    {
        self.body.as_ref()
    }

    /// The query parameters.
    pub fn params(&self) -> (params: &Params)
        ensures
            params@ == self@.params,
            params.names() == self@.param_names,
    {
        &self.params
    }

    /// Gives the request the header `header_name` with `header_value`, unless
    /// it has a header of that name already.
    pub fn add_header_if_not_exists(&mut self, header_name: String, header_value: Option<String>)
        ensures
            final(self)@ == if old(self)@.headers.contains_key(header_name@) {
                old(self)@
            } else {
                RequestView {
                    headers: old(self)@.headers.insert(header_name@, header_value.deep_view()),
                    header_names: old(self)@.header_names.push(header_name@),
                    ..old(self)@
                }
            },
    {
        self.headers.insert_if_absent(header_name, header_value);
    }

    /// Interpolates the address. A failure leaves the request as it was.
    pub fn interpolate_uri(&mut self, env: &Environment) -> (r: KuiperResult<()>)
        ensures
            match r {
                Ok(_) => interpolates(
                    old(self)@.uri,
                    env@,
                    Ok::<Seq<char>, Failure>(final(self)@.uri),
                ) && final(self)@ == (RequestView { uri: final(self)@.uri, ..old(self)@ }),
                Err(KuiperError::InterpolationError(e)) => failure_of(old(self)@.uri, env@) == Some(
                    e@,
                ) && *final(self) == *old(self),
                Err(_) => false,
            },
            r is Err <==> failure_of(old(self)@.uri, env@) is Some,
    {
        match Self::interpolate_str(self.uri.as_str(), env) {
            Ok(uri) => {
                self.uri = uri;
                Ok(())
            },
            Err(error) => {
                proof {
                    lemma_failure_of(
                        self.uri@,
                        env@,
                        Err::<Seq<char>, Failure>(error->InterpolationError_0@),
                    );
                }
                Err(error)
            },
        }
    }

    /// Interpolates every header value that is present, in the order in which
    /// the request holds its headers. A failure leaves the request as it was.
    pub fn interpolate_headers(&mut self, env: &Environment) -> (r: KuiperResult<()>)
        ensures
            match r {
                Ok(_) => {
                    &&& final(self)@ == (RequestView {
                        headers: final(self)@.headers,
                        ..old(self)@
                    })
                    &&& final(self)@.headers.dom() == old(self)@.headers.dom()
                    &&& forall|k: Seq<char>|
                        old(self)@.headers.contains_key(k) ==> value_interpolates(
                            old(self)@.headers[k],
                            env@,
                            #[trigger] final(self)@.headers[k],
                        )
                },
                Err(KuiperError::InterpolationError(e)) => headers_failure(
                    old(self)@.header_names,
                    old(self)@.headers,
                    env@,
                    0,
                ) == Some(e@) && *final(self) == *old(self),
                Err(_) => false,
            },
            r is Err <==> headers_failure(
                old(self)@.header_names,
                old(self)@.headers,
                env@,
                0,
            ) is Some,
    {
        let n = self.headers.len();
        let ghost names = self.headers.names();
        let ghost map = self.headers@;
        proof {
            use_type_invariant(&self.headers);
            self.headers.lemma_entries();
        }
        let mut out: Headers = Dict::new();
        let mut i: usize = 0;
        while i < n
            invariant
                *self == *old(self),
                names == self.headers.names(),
                map == self.headers@,
                n == names.len(),
                i <= n,
                names.no_duplicates(),
                out.names() == names.subrange(0, i as int),
                forall|j: int|
                    0 <= j < i ==> out@.contains_key(#[trigger] names[j]) && value_interpolates(
                        map[names[j]],
                        env@,
                        out@[names[j]],
                    ),
                headers_failure(names, map, env@, 0) == headers_failure(names, map, env@, i as int),
            decreases n - i,
        {
            let name = self.headers.name_at(i).clone();
            let value: Option<String> = match self.headers.value_at(i) {
                Some(text) => {
                    match Self::interpolate_str(text.as_str(), env) {
                        Ok(result) => Some(result),
                        Err(error) => {
                            proof {
                                lemma_failure_of(
                                    text@,
                                    env@,
                                    Err::<Seq<char>, Failure>(error->InterpolationError_0@),
                                );
                            }
                            return Err(error);
                        },
                    }
                },
                None => None,
            };
            proof {
                use_type_invariant(&out);
                out.lemma_entries();
                if out@.contains_key(name@) {
                    let j = choose|j: int|
                        0 <= j < out.names().len() && out.names()[j] == names[i as int];
                    assert(names[j] == names[i as int]);
                }
            }
            let ghost held = out@;
            out.insert(name, value);
            proof {
                assert(out.names() =~= names.subrange(0, i + 1));
                assert forall|j: int| 0 <= j < i + 1 implies out@.contains_key(#[trigger] names[j])
                    && value_interpolates(map[names[j]], env@, out@[names[j]]) by {
                    if j < i {
                        assert(held.contains_key(names[j]));
                    }
                }
            }
            i += 1;
        }
        proof {
            use_type_invariant(&out);
            out.lemma_entries();
            assert(names.subrange(0, n as int) =~= names);
            assert(out@.dom() =~= map.dom());
            assert forall|k: Seq<char>| map.contains_key(k) implies value_interpolates(
                map[k],
                env@,
                #[trigger] out@[k],
            ) by {
                let j = choose|j: int| 0 <= j < names.len() && names[j] == k;
                assert(out@.contains_key(names[j]));
            }
        }
        self.headers = out;
        Ok(())
    }

    /// Interpolates every parameter value, in the order in which the request
    /// holds its parameters. A failure leaves the request as it was.
    pub fn interpolate_params(&mut self, env: &Environment) -> (r: KuiperResult<()>)
        ensures
            match r {
                Ok(_) => {
                    &&& final(self)@ == (RequestView {
                        params: final(self)@.params,
                        ..old(self)@
                    })
                    &&& final(self)@.params.dom() == old(self)@.params.dom()
                    &&& forall|k: Seq<char>|
                        old(self)@.params.contains_key(k) ==> interpolates(
                            old(self)@.params[k],
                            env@,
                            Ok::<Seq<char>, Failure>(#[trigger] final(self)@.params[k]),
                        )
                },
                Err(KuiperError::InterpolationError(e)) => params_failure(
                    old(self)@.param_names,
                    old(self)@.params,
                    env@,
                    0,
                ) == Some(e@) && *final(self) == *old(self),
                Err(_) => false,
            },
            r is Err <==> params_failure(
                old(self)@.param_names,
                old(self)@.params,
                env@,
                0,
            ) is Some,
    {
        let n = self.params.len();
        let ghost names = self.params.names();
        let ghost map = self.params@;
        proof {
            use_type_invariant(&self.params);
            self.params.lemma_entries();
        }
        let mut out: Params = Dict::new();
        let mut i: usize = 0;
        while i < n
            invariant
                *self == *old(self),
                names == self.params.names(),
                map == self.params@,
                n == names.len(),
                i <= n,
                names.no_duplicates(),
                out.names() == names.subrange(0, i as int),
                forall|j: int|
                    0 <= j < i ==> out@.contains_key(#[trigger] names[j]) && interpolates(
                        map[names[j]],
                        env@,
                        Ok::<Seq<char>, Failure>(out@[names[j]]),
                    ),
                params_failure(names, map, env@, 0) == params_failure(names, map, env@, i as int),
            decreases n - i,
        {
            let name = self.params.name_at(i).clone();
            let text = self.params.value_at(i);
            let value = match Self::interpolate_str(text.as_str(), env) {
                Ok(result) => result,
                Err(error) => {
                    proof {
                        lemma_failure_of(
                            text@,
                            env@,
                            Err::<Seq<char>, Failure>(error->InterpolationError_0@),
                        );
                    }
                    return Err(error);
                },
            };
            proof {
                use_type_invariant(&out);
                out.lemma_entries();
                if out@.contains_key(name@) {
                    let j = choose|j: int|
                        0 <= j < out.names().len() && out.names()[j] == names[i as int];
                    assert(names[j] == names[i as int]);
                }
            }
            let ghost held = out@;
            out.insert(name, value);
            proof {
                assert(out.names() =~= names.subrange(0, i + 1));
                assert forall|j: int| 0 <= j < i + 1 implies out@.contains_key(#[trigger] names[j])
                    && interpolates(
                    map[names[j]],
                    env@,
                    Ok::<Seq<char>, Failure>(out@[names[j]]),
                ) by {
                    if j < i {
                        assert(held.contains_key(names[j]));
                    }
                }
            }
            i += 1;
        }
        proof {
            use_type_invariant(&out);
            out.lemma_entries();
            assert(names.subrange(0, n as int) =~= names);
            assert(out@.dom() =~= map.dom());
            assert forall|k: Seq<char>| map.contains_key(k) implies interpolates(
                map[k],
                env@,
                Ok::<Seq<char>, Failure>(#[trigger] out@[k]),
            ) by {
                let j = choose|j: int| 0 <= j < names.len() && names[j] == k;
                assert(out@.contains_key(names[j]));
            }
        }
        self.params = out;
        Ok(())
    }

    /// Interpolates the body: its JSON text is interpolated and read again.
    /// The text `null` leaves the request without a body. A failure leaves
    /// the request as it was.
    pub fn interpolate_body(&mut self, env: &Environment) -> (r: KuiperResult<()>)
        ensures
            match r {
                Ok(_) => body_interpolates(old(self)@.body, env@, final(self)@.body)
                    && final(self)@ == (RequestView { body: final(self)@.body, ..old(self)@ }),
                Err(KuiperError::InterpolationError(e)) => old(self)@.body matches Some(body)
                    && failure_of(json_text(body), env@) == Some(e@) && *final(self) == *old(self),
                Err(KuiperError::JsonError(_)) => old(self)@.body matches Some(body) && failure_of(
                    json_text(body),
                    env@,
                ) is None && body_may_break(body, env@) && *final(self) == *old(self),
                Err(_) => false,
            },
            old(self)@.body is None ==> r is Ok,
            old(self)@.body matches Some(body) && failure_of(json_text(body), env@) is Some
                ==> r is Err,
    {
        let text = match &self.body {
            Some(body) => render(body),
            None => {
                return Ok(());
            },
        };
        let result = match Self::interpolate_str(text.as_str(), env) {
            Ok(result) => result,
            Err(error) => {
                proof {
                    lemma_failure_of(
                        text@,
                        env@,
                        Err::<Seq<char>, Failure>(error->InterpolationError_0@),
                    );
                }
                return Err(error);
            },
        };
        match parse(result.as_str()) {
            Ok(body) => {
                assert(json_body(result@) == Some(body));
                self.body = body;
                Ok(())
            },
            Err(error) => {
                assert(json_body(result@) is None);
                Err(KuiperError::JsonError(error))
            },
        }
    }

    /// The request with every placeholder replaced: in the address, in the
    /// header values, in the parameter values and in the body, in this order.
    /// The first failure ends it.
    pub fn interpolate(self, env: &Environment) -> (r: KuiperResult<Request>)
        ensures
            match r {
                Ok(request) => interpolated(self@, env@, request@),
                Err(KuiperError::InterpolationError(e)) => request_failure(self@, env@) == Some(e@),
                Err(KuiperError::JsonError(_)) => {
                    &&& request_failure(self@, env@) is None
                    &&& self@.body matches Some(body)
                    &&& body_may_break(body, env@)
                },
                Err(_) => false,
            },
            request_failure(self@, env@) is Some ==> r is Err,
            request_failure(self@, env@) is None && self@.body is None ==> r is Ok,
    {
        let mut request = self;
        match request.interpolate_uri(env) {
            Err(error) => {
                return Err(error);
            },
            Ok(_) => {},
        }
        match request.interpolate_headers(env) {
            Err(error) => {
                return Err(error);
            },
            Ok(_) => {},
        }
        match request.interpolate_params(env) {
            Err(error) => {
                return Err(error);
            },
            Ok(_) => {},
        }
        match request.interpolate_body(env) {
            Err(error) => {
                return Err(error);
            },
            Ok(_) => {},
        }
        Ok(request)
    }

    /// Lays the headers that `layers` pass down under those of `definition`
    /// and replaces every placeholder.
    fn resolve(definition: Request, layers: Vec<Option<Headers>>, env: &Environment) -> (r:
        KuiperResult<Request>)
        ensures
            match r {
                Ok(request) => interpolated(with_inherited(definition@, layers@), env@, request@),
                Err(KuiperError::InterpolationError(e)) => request_failure(
                    with_inherited(definition@, layers@),
                    env@,
                ) == Some(e@),
                Err(KuiperError::JsonError(_)) => {
                    &&& request_failure(with_inherited(definition@, layers@), env@) is None
                    &&& definition@.body matches Some(body)
                    &&& body_may_break(body, env@)
                },
                Err(_) => false,
            },
            request_failure(with_inherited(definition@, layers@), env@) is Some ==> r is Err,
            request_failure(with_inherited(definition@, layers@), env@) is None
                && definition@.body is None ==> r is Ok,
    {
        let mut request = definition;
        let inherited = gather_headers(layers);
        request.headers.fill_from(inherited);
        request.interpolate(env)
    }

    /// Resolves a request definition. `definition` is the request as its
    /// file declares it, named by the path of that file, and `header_files`
    /// holds the header files that were found, each with its directory. The
    /// directories above the request's file are read off its name. From the
    /// outermost to the innermost, the header file of each is laid over
    /// those before it; a directory without one contributes nothing, and a
    /// header file of any other directory is left aside. The definition
    /// inherits the headers that it does not declare itself, and every
    /// placeholder is then replaced.
    pub fn find(definition: Request, header_files: &Vec<HeaderFile>, env: &Environment) -> (r:
        KuiperResult<Request>)
        ensures
            match r {
                Ok(request) => interpolated(scoped(definition@, header_files@), env@, request@),
                Err(KuiperError::InterpolationError(e)) => request_failure(
                    scoped(definition@, header_files@),
                    env@,
                ) == Some(e@),
                Err(KuiperError::JsonError(_)) => {
                    &&& request_failure(scoped(definition@, header_files@), env@) is None
                    &&& definition@.body matches Some(body)
                    &&& body_may_break(body, env@)
                },
                Err(_) => false,
            },
            request_failure(scoped(definition@, header_files@), env@) is Some ==> r is Err,
            request_failure(scoped(definition@, header_files@), env@) is None
                && definition@.body is None ==> r is Ok,
    {
        let layers = scope_layers(definition.name(), header_files);
        proof {
            lemma_same_layers(layers@, scope_layers_of(definition@.name, header_files@));
        }
        Self::resolve(definition, layers, env)
    }

    /// The headers that are sent with the request: those that have a value,
    /// in the order in which the request holds them.
    pub fn headers_to_send(&self) -> (sent: Vec<(String, String)>)
        ensures
            pairs(sent@) == present_headers(
                self@.header_names,
                self@.headers,
                self@.header_names.len() as int,
            ),
    {
        let n = self.headers.len();
        let mut sent: Vec<(String, String)> = Vec::new();
        let mut i: usize = 0;
        assert(pairs(sent@) =~= present_headers(self@.header_names, self@.headers, 0));
        while i < n
            invariant
                n == self@.header_names.len(),
                i <= n,
                pairs(sent@) == present_headers(self@.header_names, self@.headers, i as int),
            decreases n - i,
        {
            match self.headers.value_at(i) {
                Some(value) => {
                    let ghost before = sent@;
                    let entry = (self.headers.name_at(i).clone(), value.clone());
                    sent.push(entry);
                    assert(pairs(sent@) =~= pairs(before).push((entry.0@, entry.1@)));
                },
                None => {},
            }
            i += 1;
        }
        sent
    }
}

} // verus!
