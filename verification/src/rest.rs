//! The REST router: a route table ordered by specificity, scanned per request.

use crate::ranking::is_stable_order;
use crate::ranking::lemma_stable_order_unique;
use crate::ranking::occurs;
use crate::ranking::precedes;
use crate::ranking::stable_order;
use crate::request_spec::Match;
use crate::request_spec::RequestSpec;
use crate::response::converts;
use crate::response::is_header_name;
use crate::response::is_header_name_byte;
use crate::response::is_header_value;
use crate::response::is_header_value_byte;
use crate::response::method_disallowed;
use crate::response::method_disallowed_model;
use crate::response::AwsRestJson1;
use crate::response::AwsRestXml;
use crate::response::IntoResponse;
use crate::response::ResponseModel;
use crate::response::ResponseParts;
use crate::response::RuntimeErrorExtension;
use crate::response::UNKNOWN_OPERATION_EXCEPTION;
use vstd::prelude::*;

verus! {

broadcast use vstd::string::to_string_from_display_ensures_for_str;

/// Why no route was selected for a request.
#[derive(Clone, Copy, Debug, PartialEq, Eq, Structural)]
pub enum Error {
    /// No specification's path matched.
    NotFound,
    /// Some specification's path matched, but none accepted the method.
    MethodNotAllowed,
}

impl Error {
    /// A short description of the error.
    pub fn message(&self) -> (text: &'static str)
        ensures
            text@ == match self {
                Error::NotFound => "operation not found"@,
                Error::MethodNotAllowed => "method was not allowed"@,
            },
    {
        match self {
            Error::NotFound => "operation not found",
            Error::MethodNotAllowed => "method was not allowed",
        }
    }
}

/// The REST JSON answer to a request for no known operation: status 404, a
/// JSON content type, the error type in its header, and an empty JSON object.
pub open spec fn not_found_json() -> ResponseModel {
    ResponseModel {
        status: 404,
        headers: seq![
            ("content-type"@, "application/json"@),
            ("X-Amzn-Errortype"@, UNKNOWN_OPERATION_EXCEPTION@),
        ],
        extension: Some(UNKNOWN_OPERATION_EXCEPTION@),
        body: "{}"@,
    }
}

/// The REST XML answer to a request for no known operation: status 404, an
/// XML content type and no body.
pub open spec fn not_found_xml() -> ResponseModel {
    ResponseModel {
        status: 404,
        headers: seq![("content-type"@, "application/xml"@)],
        extension: Some(UNKNOWN_OPERATION_EXCEPTION@),
        body: Seq::empty(),
    }
}

impl IntoResponse<AwsRestJson1> for Error {
    open spec fn rendered(self) -> ResponseModel {
        match self {
            Error::NotFound => not_found_json(),
            Error::MethodNotAllowed => method_disallowed_model(),
        }
    }

    /// Renders the error for the REST JSON protocol.
    fn into_response(self) -> (response: ResponseParts) {
        proof {
            lemma_error_responses_convert();
        }
        match self {
            Error::NotFound => {
                let mut headers: Vec<(String, String)> = Vec::new();
                headers.push(("content-type".to_string(), "application/json".to_string()));
                headers.push(("X-Amzn-Errortype".to_string(), UNKNOWN_OPERATION_EXCEPTION.to_string()));
                let response = ResponseParts {
                    status: 404,
                    headers,
                    extension: Some(RuntimeErrorExtension::new(UNKNOWN_OPERATION_EXCEPTION.to_string())),
                    body: "{}".to_string(),
                };
                assert(response@.headers =~= not_found_json().headers);
                response
            },
            Error::MethodNotAllowed => method_disallowed(),
        }
    }
}

impl IntoResponse<AwsRestXml> for Error {
    open spec fn rendered(self) -> ResponseModel {
        match self {
            Error::NotFound => not_found_xml(),
            Error::MethodNotAllowed => method_disallowed_model(),
        }
    }

    /// Renders the error for the REST XML protocol.
    fn into_response(self) -> (response: ResponseParts) {
        proof {
            lemma_error_responses_convert();
        }
        match self {
            Error::NotFound => {
                let mut headers: Vec<(String, String)> = Vec::new();
                headers.push(("content-type".to_string(), "application/xml".to_string()));
                let response = ResponseParts {
                    status: 404,
                    headers,
                    extension: Some(RuntimeErrorExtension::new(UNKNOWN_OPERATION_EXCEPTION.to_string())),
                    body: String::new(),
                };
                assert(response@.headers =~= not_found_xml().headers);
                response
            },
            Error::MethodNotAllowed => method_disallowed(),
        }
    }
}

/// The responses that routing errors are rendered as are sure to convert:
/// `http` takes the status and every header of each, so that rendering a
/// routing error never fails.
pub proof fn lemma_error_responses_convert()
    ensures
        converts(not_found_json()),
        converts(not_found_xml()),
        converts(method_disallowed_model()),
{
    assert(is_header_name("content-type"@)) by {
        reveal_strlit("content-type");
        let text = "content-type"@;
        assert forall|i: int| 0 <= i < text.len() implies '\0' <= #[trigger] text[i] <= '\u{7f}' && is_header_name_byte(
            text[i] as u8,
        ) by {
            assert(i == 0 || i == 1 || i == 2 || i == 3 || i == 4 || i == 5 || i == 6 || i == 7 || i == 8 || i == 9 || i == 10 || i == 11);
        }
        vstd::utf8::is_ascii_chars_encode_utf8(text);
    }
    assert(is_header_name("X-Amzn-Errortype"@)) by {
        reveal_strlit("X-Amzn-Errortype");
        let text = "X-Amzn-Errortype"@;
        assert forall|i: int| 0 <= i < text.len() implies '\0' <= #[trigger] text[i] <= '\u{7f}' && is_header_name_byte(
            text[i] as u8,
        ) by {
            assert(i == 0 || i == 1 || i == 2 || i == 3 || i == 4 || i == 5 || i == 6 || i == 7 || i == 8 || i == 9 || i == 10 || i == 11 || i == 12 || i == 13 || i == 14 || i == 15);
        }
        vstd::utf8::is_ascii_chars_encode_utf8(text);
    }
    assert(is_header_value("application/json"@)) by {
        reveal_strlit("application/json");
        let text = "application/json"@;
        assert forall|i: int| 0 <= i < text.len() implies '\0' <= #[trigger] text[i] <= '\u{7f}' && is_header_value_byte(
            text[i] as u8,
        ) by {
            assert(i == 0 || i == 1 || i == 2 || i == 3 || i == 4 || i == 5 || i == 6 || i == 7 || i == 8 || i == 9 || i == 10 || i == 11 || i == 12 || i == 13 || i == 14 || i == 15);
        }
        vstd::utf8::is_ascii_chars_encode_utf8(text);
    }
    assert(is_header_value("application/xml"@)) by {
        reveal_strlit("application/xml");
        let text = "application/xml"@;
        assert forall|i: int| 0 <= i < text.len() implies '\0' <= #[trigger] text[i] <= '\u{7f}' && is_header_value_byte(
            text[i] as u8,
        ) by {
            assert(i == 0 || i == 1 || i == 2 || i == 3 || i == 4 || i == 5 || i == 6 || i == 7 || i == 8 || i == 9 || i == 10 || i == 11 || i == 12 || i == 13 || i == 14);
        }
        vstd::utf8::is_ascii_chars_encode_utf8(text);
    }
    assert(is_header_value("UnknownOperationException"@)) by {
        reveal_strlit("UnknownOperationException");
        let text = "UnknownOperationException"@;
        assert forall|i: int| 0 <= i < text.len() implies '\0' <= #[trigger] text[i] <= '\u{7f}' && is_header_value_byte(
            text[i] as u8,
        ) by {
            assert(i == 0 || i == 1 || i == 2 || i == 3 || i == 4 || i == 5 || i == 6 || i == 7 || i == 8 || i == 9 || i == 10 || i == 11 || i == 12 || i == 13 || i == 14 || i == 15 || i == 16 || i == 17 || i == 18 || i == 19 || i == 20 || i == 21 || i == 22 || i == 23 || i == 24);
        }
        vstd::utf8::is_ascii_chars_encode_utf8(text);
    }
    assert(UNKNOWN_OPERATION_EXCEPTION@ == "UnknownOperationException"@);
}

/// The ranks of the entries, in the entries' order.
pub open spec fn ranks_of<Spec: RequestSpec, S>(routes: Seq<(Spec, S)>) -> Seq<usize> {
    Seq::new(routes.len(), |i: int| routes[i].0.rank_of())
}

/// The entries of `routes` taken in the order that `order` lists their indices.
pub open spec fn arranged<Spec, S>(routes: Seq<(Spec, S)>, order: Seq<usize>) -> Seq<(Spec, S)> {
    Seq::new(order.len(), |k: int| routes[order[k] as int])
}

/// `table` holds the entries of `routes` in dispatch order: every entry once,
/// ranks descending, entries of equal rank in the order they were registered.
pub open spec fn is_dispatch_order<Spec: RequestSpec, S>(
    routes: Seq<(Spec, S)>,
    table: Seq<(Spec, S)>,
) -> bool {
    exists|order: Seq<usize>| #[trigger]
        is_stable_order(ranks_of(routes), order) && table == arranged(routes, order)
}

/// The table is in dispatch order: ranks never increase along it.
pub open spec fn ranked<Spec: RequestSpec, S>(routes: Seq<(Spec, S)>) -> bool {
    forall|i: int, j: int| 0 <= i < j < routes.len() ==> routes[i].0.rank_of() >= routes[j].0.rank_of()
}

/// Entry `i` accepts the request and no entry before it does.
pub open spec fn is_first_yes<Spec: RequestSpec, S>(
    routes: Seq<(Spec, S)>,
    request: &Spec::Request,
    i: int,
) -> bool {
    &&& 0 <= i < routes.len()
    &&& routes[i].0.outcome(request) == Match::Yes
    &&& forall|j: int| 0 <= j < i ==> routes[j].0.outcome(request) != Match::Yes
}

/// No entry accepts the request.
pub open spec fn none_yes<Spec: RequestSpec, S>(routes: Seq<(Spec, S)>, request: &Spec::Request) -> bool {
    forall|j: int| 0 <= j < routes.len() ==> routes[j].0.outcome(request) != Match::Yes
}

/// Some entry matches the request's path but not its method.
pub open spec fn some_method_mismatch<Spec: RequestSpec, S>(
    routes: Seq<(Spec, S)>,
    request: &Spec::Request,
) -> bool {
    exists|j: int| 0 <= j < routes.len() && routes[j].0.outcome(request) == Match::MethodNotAllowed
}

/// What dispatch decides: the index of the selected entry, or the error.
pub open spec fn selection<Spec: RequestSpec, S>(
    routes: Seq<(Spec, S)>,
    request: &Spec::Request,
) -> Result<int, Error> {
    if exists|i: int| is_first_yes(routes, request, i) {
        Ok(choose|i: int| is_first_yes(routes, request, i))
    } else if some_method_mismatch(routes, request) {
        Err(Error::MethodNotAllowed)
    } else {
        Err(Error::NotFound)
    }
}

/// `res` is what dispatch owes for `request` on the table `routes`: a clone of
/// the selected entry's handler, or the error that `selection` names.
pub open spec fn is_dispatch_of<Spec: RequestSpec, S: Clone>(
    routes: Seq<(Spec, S)>,
    request: &Spec::Request,
    res: Result<S, Error>,
) -> bool {
    match selection(routes, request) {
        Ok(i) => res matches Ok(handler) && cloned(routes[i].1, handler),
        Err(e) => res == Err::<S, Error>(e),
    }
}

/// An entry that accepts the request, with none before it that does, is the
/// selected one.
pub proof fn lemma_first_yes_is_selected<Spec: RequestSpec, S>(
    routes: Seq<(Spec, S)>,
    request: &Spec::Request,
    i: int,
)
    requires
        is_first_yes(routes, request, i),
    ensures
        selection(routes, request) == Ok::<int, Error>(i),
{
    let chosen = choose|k: int| is_first_yes(routes, request, k);
    assert(chosen == i) by {
        if chosen < i {
            assert(routes[chosen].0.outcome(request) != Match::Yes);
        }
        if i < chosen {
            assert(routes[i].0.outcome(request) != Match::Yes);
        }
    }
}

/// Where no entry accepts the request, dispatch fails, and the error tells
/// whether any entry matched the path.
pub proof fn lemma_no_yes_is_an_error<Spec: RequestSpec, S>(routes: Seq<(Spec, S)>, request: &Spec::Request)
    requires
        none_yes(routes, request),
    ensures
        selection(routes, request) == Err::<int, Error>(
            if some_method_mismatch(routes, request) {
                Error::MethodNotAllowed
            } else {
                Error::NotFound
            },
        ),
{
    assert forall|i: int| !is_first_yes(routes, request, i) by {
        if 0 <= i < routes.len() {
            assert(routes[i].0.outcome(request) != Match::Yes);
        }
    }
}

/// `copies` holds, place by place, a clone of each entry of `table`.
pub open spec fn is_copy_of<Spec: Clone, S: Clone>(table: Seq<(Spec, S)>, copies: Seq<(Spec, S)>) -> bool {
    &&& copies.len() == table.len()
    &&& forall|i: int|
        0 <= i < table.len() ==> cloned(table[i].0, (#[trigger] copies[i]).0) && cloned(
            table[i].1,
            copies[i].1,
        )
}

/// `after` is `before` with every handler passed through `layer`: the same
/// specifications in the same places, each with the handler that `layer`
/// returned for the one that stood there.
pub open spec fn is_layered<Spec, S, T, L: Fn(S) -> T>(
    before: Seq<(Spec, S)>,
    after: Seq<(Spec, T)>,
    layer: L,
) -> bool {
    &&& after.len() == before.len()
    &&& forall|i: int|
        0 <= i < before.len() ==> (#[trigger] after[i]).0 == before[i].0 && call_ensures(
            layer,
            (before[i].1,),
            after[i].1,
        )
}

/// A router for REST protocols: route specifications with their handlers,
/// most specific first.
#[derive(Debug)]
pub struct RestRouter<Spec: RequestSpec, S> {
    routes: Vec<(Spec, S)>,
}

impl<Spec: RequestSpec, S> View for RestRouter<Spec, S> {
    type V = Seq<(Spec, S)>;

    /// The route table in dispatch order.
    closed spec fn view(&self) -> Seq<(Spec, S)> {
        self.routes@
    }
}

/// Reads the rank of every entry.
fn collect_ranks<Spec: RequestSpec, S>(routes: &Vec<(Spec, S)>) -> (ranks: Vec<usize>)
    ensures
        ranks@ == ranks_of(routes@),
{
    let mut ranks: Vec<usize> = Vec::with_capacity(routes.len());
    let mut i: usize = 0;
    while i < routes.len()
        invariant
            i <= routes.len(),
            ranks.len() == i,
            forall|k: int| 0 <= k < i ==> ranks[k] == routes[k].0.rank_of(),
        decreases routes.len() - i,
    {
        ranks.push(routes[i].0.rank());
        i += 1;
    }
    assert(ranks@ =~= ranks_of(routes@));
    ranks
}

/// Moves the entries into slots that can be emptied one by one.
fn into_slots<T>(items: Vec<T>) -> (slots: Vec<Option<T>>)
    ensures
        slots.len() == items.len(),
        forall|i: int| 0 <= i < items.len() ==> slots[i] == Some(items[i]),
{
    let mut slots: Vec<Option<T>> = Vec::with_capacity(items.len());
    let ghost all = items@;
    for item in it: items
        invariant
            it.seq() == all,
            slots.len() == it.index(),
            forall|i: int| 0 <= i < slots.len() ==> slots[i] == Some(all[i]),
    {
        slots.push(Some(item));
    }
    slots
}

/// Moves the items out of their slots in the order that `order` lists them.
fn take_in_order<T>(slots: Vec<Option<T>>, order: &Vec<usize>, Ghost(ranks): Ghost<Seq<usize>>) -> (out: Vec<T>)
    requires
        is_stable_order(ranks, order@),
        slots.len() == ranks.len(),
        forall|i: int| 0 <= i < slots.len() ==> slots[i] is Some,
    ensures
        out.len() == order.len(),
        forall|k: int| 0 <= k < out.len() ==> Some(out[k]) == slots[order[k] as int],
{
    let ghost full = slots@;
    let mut slots = slots;
    let mut out: Vec<T> = Vec::with_capacity(order.len());
    let mut k: usize = 0;
    while k < order.len()
        invariant
            is_stable_order(ranks, order@),
            full.len() == ranks.len(),
            forall|i: int| 0 <= i < full.len() ==> full[i] is Some,
            slots.len() == full.len(),
            k <= order.len(),
            out.len() == k,
            forall|m: int| 0 <= m < k ==> Some(out[m]) == full[order[m] as int],
            forall|v: int|
                0 <= v < slots.len() ==> #[trigger] slots[v] == full[v] || occurs(order@.take(k as int), v),
        decreases order.len() - k,
    {
        let index = order[k];
        slots.push(None);
        let slot = slots.swap_remove(index);
        proof {
            if occurs(order@.take(k as int), index as int) {
                let m = choose|m: int| 0 <= m < k && order@.take(k as int)[m] == index;
                assert(precedes(ranks, order[m] as int, order[k as int] as int));
            }
            assert(slot == full[index as int]);
        }
        out.push(slot.unwrap());
        proof {
            assert(order@.take(k + 1)[k as int] == index);
            assert forall|v: int| 0 <= v < slots.len() implies #[trigger] slots[v] == full[v] || occurs(
                order@.take(k + 1),
                v,
            ) by {
                if v != index && slots[v] != full[v] {
                    let m = choose|m: int| 0 <= m < k && order@.take(k as int)[m] == v;
                    assert(order@.take(k + 1)[m] == v);
                }
            }
        }
        k += 1;
    }
    out
}

impl<Spec: RequestSpec, S> RestRouter<Spec, S> {
    /// The table is kept in dispatch order.
    #[verifier::type_invariant]
    spec fn table_is_ranked(self) -> bool {
        ranked(self.routes@)
    }

    /// Applies a layer uniformly to all routes. Order and specifications
    /// stay as they are; each handler is replaced by what `layer` made of it.
    /// The router it was called on is consumed; nothing is changed in place.
    pub fn layer<T, L: Fn(S) -> T>(self, layer: L) -> (router: RestRouter<Spec, T>)
        requires
            forall|i: int| 0 <= i < self@.len() ==> call_requires(layer, (#[trigger] self@[i].1,)),
        ensures
            is_layered(self@, router@, layer),
            ranked(router@),
    {
        proof {
            use_type_invariant(&self);
        }
        let ghost before = self.routes@;
        assert(before == self@);
        let mut table: Vec<(Spec, T)> = Vec::with_capacity(self.routes.len());
        for entry in it: self.routes
            invariant
                it.seq() == before,
                table.len() == it.index(),
                forall|i: int| 0 <= i < before.len() ==> call_requires(layer, (#[trigger] before[i].1,)),
                forall|i: int|
                    0 <= i < table.len() ==> (#[trigger] table[i]).0 == before[i].0 && call_ensures(
                        layer,
                        (before[i].1,),
                        table[i].1,
                    ),
        {
            let (request_spec, route) = entry;
            table.push((request_spec, layer(route)));
        }
        RestRouter { routes: table }
    }

    /// Builds a router from routes in registration order. They are sorted
    /// once by specificity, the more specific before the less specific and
    /// equals in the order given, so that routing a request can walk the
    /// table and pick the first route that matches. An empty vector gives a
    /// router that finds nothing.
    pub fn from_iter(routes: Vec<(Spec, S)>) -> (router: Self)
        ensures
            is_dispatch_order(routes@, router@),
            ranked(router@),
    {
        let ranks = collect_ranks(&routes);
        let order = stable_order(&ranks);
        let ghost registered = routes@;
        let slots = into_slots(routes);
        let table = take_in_order(slots, &order, Ghost(ranks@));
        proof {
            assert(table@ =~= arranged(registered, order@));
            assert forall|a: int, b: int| 0 <= a < b < table.len() implies table[a].0.rank_of()
                >= table[b].0.rank_of() by {
                assert(precedes(ranks@, order[a] as int, order[b] as int));
            }
        }
        RestRouter { routes: table }
    }

    /// Selects the handler for `request`: the first entry in dispatch order
    /// whose specification answers `Yes`. Without one, the error says whether
    /// any specification matched the path.
    pub fn match_route(&self, request: &Spec::Request) -> (res: Result<S, Error>)
        where S: Clone
        ensures
            ranked(self@),
            is_dispatch_of(self@, request, res),
    {
        proof {
            use_type_invariant(self);
        }
        let mut method_allowed = true;
        let mut i: usize = 0;
        while i < self.routes.len()
            invariant
                ranked(self@),
                i <= self.routes.len(),
                forall|j: int| 0 <= j < i ==> self.routes@[j].0.outcome(request) != Match::Yes,
                method_allowed <==> forall|j: int|
                    0 <= j < i ==> self.routes@[j].0.outcome(request) != Match::MethodNotAllowed,
            decreases self.routes.len() - i,
        {
            let entry = &self.routes[i];
            match entry.0.matches(request) {
                // Match found.
                Match::Yes => {
                    let handler = entry.1.clone();
                    proof {
                        lemma_first_yes_is_selected(self@, request, i as int);
                    }
                    return Ok(handler);
                },
                // Match found, but method disallowed.
                Match::MethodNotAllowed => {
                    method_allowed = false;
                },
                // Keep looking: another route may match.
                Match::No => {},
            }
            i += 1;
        }
        proof {
            lemma_no_yes_is_an_error(self@, request);
        }
        if method_allowed {
            Err(Error::NotFound)
        } else {
            Err(Error::MethodNotAllowed)
        }
    }
}

impl<Spec: RequestSpec + Clone, S: Clone> Clone for RestRouter<Spec, S> {
    /// Clones every entry and puts the clones in dispatch order, as
    /// [`RestRouter::from_iter`] does. Where cloning keeps the ranks, that is
    /// the order of this router.
    fn clone(&self) -> (router: Self)
        ensures
            ranked(router@),
            exists|copies: Seq<(Spec, S)>| #[trigger]
                is_copy_of(self@, copies) && is_dispatch_order(copies, router@),
    {
        let mut copies: Vec<(Spec, S)> = Vec::with_capacity(self.routes.len());
        let mut i: usize = 0;
        while i < self.routes.len()
            invariant
                i <= self.routes.len(),
                copies.len() == i,
                forall|j: int|
                    0 <= j < i ==> cloned(self.routes[j].0, (#[trigger] copies[j]).0) && cloned(
                        self.routes[j].1,
                        copies[j].1,
                    ),
            decreases self.routes.len() - i,
        {
            let entry = &self.routes[i];
            copies.push((entry.0.clone(), entry.1.clone()));
            i += 1;
        }
        assert(is_copy_of(self@, copies@));
        RestRouter::from_iter(copies)
    }
}

/// The dispatch order of given routes is unique: two tables that both hold
/// them in dispatch order are the same table.
pub proof fn lemma_dispatch_order_is_unique<Spec: RequestSpec, S>(
    registered: Seq<(Spec, S)>,
    first: Seq<(Spec, S)>,
    second: Seq<(Spec, S)>,
)
    requires
        is_dispatch_order(registered, first),
        is_dispatch_order(registered, second),
    ensures
        first == second,
{
    let ranks = ranks_of(registered);
    let order1 = choose|order: Seq<usize>| #[trigger]
        is_stable_order(ranks, order) && first == arranged(registered, order);
    let order2 = choose|order: Seq<usize>| #[trigger]
        is_stable_order(ranks, order) && second == arranged(registered, order);
    lemma_stable_order_unique(ranks, order1, order2);
}

/// A table along which the ranks never increase is in dispatch order as it
/// stands: building a router from it moves no entry.
pub proof fn lemma_ranked_table_is_in_dispatch_order<Spec: RequestSpec, S>(table: Seq<(Spec, S)>)
    requires
        ranked(table),
        table.len() <= usize::MAX,
    ensures
        is_dispatch_order(table, table),
{
    let ranks = ranks_of(table);
    let order = Seq::new(table.len(), |i: int| i as usize);
    assert forall|v: int| 0 <= v < table.len() implies #[trigger] occurs(order, v) by {
        assert(order[v] == v);
    }
    assert(is_stable_order(ranks, order));
    assert(table =~= arranged(table, order));
}

/// Along a table in dispatch order the ranks never increase.
pub proof fn lemma_dispatch_order_is_ranked<Spec: RequestSpec, S>(
    registered: Seq<(Spec, S)>,
    table: Seq<(Spec, S)>,
)
    requires
        is_dispatch_order(registered, table),
    ensures
        ranked(table),
        table.len() == registered.len(),
{
    let ranks = ranks_of(registered);
    let order = choose|order: Seq<usize>| #[trigger]
        is_stable_order(ranks, order) && table == arranged(registered, order);
    assert forall|i: int, j: int| 0 <= i < j < table.len() implies table[i].0.rank_of()
        >= table[j].0.rank_of() by {
        assert(precedes(ranks, order[i] as int, order[j] as int));
    }
}

/// Some entry at or before an accepting entry is the first to accept.
proof fn lemma_first_yes_exists<Spec: RequestSpec, S>(
    routes: Seq<(Spec, S)>,
    request: &Spec::Request,
    a: int,
) -> (k: int)
    requires
        0 <= a < routes.len(),
        routes[a].0.outcome(request) == Match::Yes,
    ensures
        k <= a,
        is_first_yes(routes, request, k),
    decreases a,
{
    if exists|j: int| 0 <= j < a && routes[j].0.outcome(request) == Match::Yes {
        let j = choose|j: int| 0 <= j < a && routes[j].0.outcome(request) == Match::Yes;
        lemma_first_yes_exists(routes, request, j)
    } else {
        a
    }
}

/// Specificity decides among matching entries of a ranked table: where
/// entries `a` and `b` both accept the request and `a` has the higher rank,
/// dispatch selects an entry that accepts, stands no later than `a`, before
/// `b`, and ranks at least as high as `a`.
pub proof fn lemma_more_specific_entry_wins<Spec: RequestSpec, S>(
    routes: Seq<(Spec, S)>,
    request: &Spec::Request,
    a: int,
    b: int,
)
    requires
        ranked(routes),
        0 <= a < routes.len(),
        0 <= b < routes.len(),
        routes[a].0.outcome(request) == Match::Yes,
        routes[b].0.outcome(request) == Match::Yes,
        routes[a].0.rank_of() > routes[b].0.rank_of(),
    ensures
        selection(routes, request) matches Ok(k) && k <= a && k < b && routes[k].0.outcome(request)
            == Match::Yes && routes[k].0.rank_of() >= routes[a].0.rank_of(),
{
    let k = lemma_first_yes_exists(routes, request, a);
    lemma_first_yes_is_selected(routes, request, k);
}

/// Specificity decides among registered routes: where registered routes `a`
/// and `b` both accept the request and `a` has the higher rank, dispatch on
/// their table selects a route that accepts and ranks at least as high as
/// `a`, hence never `b`.
pub proof fn lemma_more_specific_route_wins<Spec: RequestSpec, S>(
    registered: Seq<(Spec, S)>,
    table: Seq<(Spec, S)>,
    request: &Spec::Request,
    a: int,
    b: int,
)
    requires
        is_dispatch_order(registered, table),
        0 <= a < registered.len(),
        0 <= b < registered.len(),
        registered[a].0.outcome(request) == Match::Yes,
        registered[b].0.outcome(request) == Match::Yes,
        registered[a].0.rank_of() > registered[b].0.rank_of(),
    ensures
        selection(table, request) matches Ok(k) && 0 <= k < table.len() && table[k].0.outcome(request)
            == Match::Yes && table[k].0.rank_of() >= registered[a].0.rank_of() && table[k].0.rank_of()
            > registered[b].0.rank_of(),
{
    let ranks = ranks_of(registered);
    let order = choose|order: Seq<usize>| #[trigger]
        is_stable_order(ranks, order) && table == arranged(registered, order);
    lemma_dispatch_order_is_ranked(registered, table);
    assert(occurs(order, a));
    assert(occurs(order, b));
    let pa = choose|k: int| 0 <= k < order.len() && order[k] == a;
    let pb = choose|k: int| 0 <= k < order.len() && order[k] == b;
    assert(table[pa] == registered[a]);
    assert(table[pb] == registered[b]);
    lemma_more_specific_entry_wins(table, request, pa, pb);
}

/// The exact rule of selection over registered routes: a route that accepts
/// the request and precedes every other route that accepts it (a higher
/// rank, or the same rank and registered earlier) is the one selected.
pub proof fn lemma_best_match_is_selected<Spec: RequestSpec, S>(
    registered: Seq<(Spec, S)>,
    table: Seq<(Spec, S)>,
    request: &Spec::Request,
    a: int,
)
    requires
        is_dispatch_order(registered, table),
        0 <= a < registered.len(),
        registered[a].0.outcome(request) == Match::Yes,
        forall|c: int|
            0 <= c < registered.len() && c != a && #[trigger] registered[c].0.outcome(request) == Match::Yes
                ==> precedes(ranks_of(registered), a, c),
    ensures
        selection(table, request) matches Ok(k) && 0 <= k < table.len() && table[k] == registered[a],
{
    let ranks = ranks_of(registered);
    let order = choose|order: Seq<usize>| #[trigger]
        is_stable_order(ranks, order) && table == arranged(registered, order);
    assert(occurs(order, a));
    let pa = choose|k: int| 0 <= k < order.len() && order[k] == a;
    assert(table[pa] == registered[a]);
    assert forall|j: int| 0 <= j < pa implies table[j].0.outcome(request) != Match::Yes by {
        let c = order[j] as int;
        assert(precedes(ranks, order[j] as int, order[pa] as int));
        assert(table[j] == registered[c]);
        if registered[c].0.outcome(request) == Match::Yes {
            assert(precedes(ranks, a, c));
        }
    }
    lemma_first_yes_is_selected(table, request, pa);
}

/// A path that matched somewhere decides the error: where no entry accepts
/// the request and entry `x` matches its path but not its method, dispatch
/// fails with `MethodNotAllowed`, whatever the other entries say.
pub proof fn lemma_method_mismatch_is_not_allowed<Spec: RequestSpec, S>(
    routes: Seq<(Spec, S)>,
    request: &Spec::Request,
    x: int,
)
    requires
        none_yes(routes, request),
        0 <= x < routes.len(),
        routes[x].0.outcome(request) == Match::MethodNotAllowed,
    ensures
        selection(routes, request) == Err::<int, Error>(Error::MethodNotAllowed),
{
    lemma_no_yes_is_an_error(routes, request);
}

/// Where every specification answers `No`, as on an empty table, dispatch
/// fails with `NotFound`.
pub proof fn lemma_no_path_match_is_not_found<Spec: RequestSpec, S>(
    routes: Seq<(Spec, S)>,
    request: &Spec::Request,
)
    requires
        forall|i: int| 0 <= i < routes.len() ==> routes[i].0.outcome(request) == Match::No,
    ensures
        selection(routes, request) == Err::<int, Error>(Error::NotFound),
{
    assert(none_yes(routes, request));
    lemma_no_yes_is_an_error(routes, request);
}

/// Selection depends on the specifications alone: a layer moves no entry, so
/// dispatch on the layered table selects the same place, where the layered
/// version of the handler stands, or fails with the same error.
pub proof fn lemma_layer_keeps_selection<Spec: RequestSpec, S, T, L: Fn(S) -> T>(
    before: Seq<(Spec, S)>,
    after: Seq<(Spec, T)>,
    layer: L,
    request: &Spec::Request,
)
    requires
        is_layered(before, after, layer),
    ensures
        match selection(before, request) {
            Ok(i) => selection(after, request) == Ok::<int, Error>(i) && 0 <= i < before.len()
                && call_ensures(layer, (before[i].1,), after[i].1),
            Err(e) => selection(after, request) == Err::<int, Error>(e),
        },
{
    assert forall|i: int| 0 <= i < before.len() implies #[trigger] after[i].0.outcome(request)
        == before[i].0.outcome(request) by {
        assert(after[i].0 == before[i].0);
    }
    if exists|i: int| is_first_yes(before, request, i) {
        let i = choose|i: int| is_first_yes(before, request, i);
        assert(is_first_yes(after, request, i)) by {
            assert forall|j: int| 0 <= j < i implies after[j].0.outcome(request) != Match::Yes by {
                assert(before[j].0.outcome(request) != Match::Yes);
            }
        }
        lemma_first_yes_is_selected(after, request, i);
    } else {
        assert forall|i: int| !is_first_yes(after, request, i) by {
            if is_first_yes(after, request, i) {
                assert(is_first_yes(before, request, i)) by {
                    assert forall|j: int| 0 <= j < i implies before[j].0.outcome(request)
                        != Match::Yes by {
                        assert(after[j].0.outcome(request) != Match::Yes);
                    }
                }
            }
        }
        if some_method_mismatch(before, request) {
            let j = choose|j: int|
                0 <= j < before.len() && before[j].0.outcome(request) == Match::MethodNotAllowed;
            assert(after[j].0.outcome(request) == Match::MethodNotAllowed);
        }
        if some_method_mismatch(after, request) {
            let j = choose|j: int|
                0 <= j < after.len() && after[j].0.outcome(request) == Match::MethodNotAllowed;
            assert(before[j].0.outcome(request) == Match::MethodNotAllowed);
        }
    }
}

/// Dispatch can be repeated: two results for the same request on the same
/// table are the same error, or clones of the handler of the same entry.
pub proof fn lemma_dispatch_is_repeatable<Spec: RequestSpec, S: Clone>(
    routes: Seq<(Spec, S)>,
    request: &Spec::Request,
    first: Result<S, Error>,
    second: Result<S, Error>,
)
    requires
        is_dispatch_of(routes, request, first),
        is_dispatch_of(routes, request, second),
    ensures
        match first {
            Ok(handler) => second matches Ok(again) && exists|i: int|
                is_first_yes(routes, request, i) && cloned(routes[i].1, handler) && cloned(
                    routes[i].1,
                    again,
                ),
            Err(e) => second == Err::<S, Error>(e),
        },
{
    if let Ok(i) = selection(routes, request) {
        assert(is_first_yes(routes, request, i));
    }
}

} // verus!
