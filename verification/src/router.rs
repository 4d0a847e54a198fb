//! The router: a trie over path segments with literal and wildcard
//! children, holding one handler per method at each node.

use vstd::prelude::*;
use vstd::hash_map::StringHashMap;
use vstd::string::StrSliceExecFns;
use vstd::string::StringExecFns;
use crate::request::{
    lemma_token_not_empty, lemma_value_texts_insert, value_texts, Method, Request, RequestView,
    METHODS,
};
use crate::response::{optional_text, Response, ResponseView, METHOD_NOT_ALLOWED, NOT_FOUND};
use crate::text::{split, split_text, texts};

verus! {

/// The key under which a node holds its wildcard child.
pub open spec fn wildcard() -> Seq<char> {
    "{}"@
}

/// Whether a pattern segment is a placeholder: a name in braces.
pub open spec fn is_placeholder(segment: Seq<char>) -> bool {
    segment.len() >= 2 && segment.first() == '{' && segment.last() == '}'
}

/// The name between the braces of a placeholder.
pub open spec fn placeholder_name(segment: Seq<char>) -> Seq<char> {
    segment.subrange(1, segment.len() - 1)
}

/// The key under which a pattern segment is stored: the wildcard key for a
/// placeholder, the segment itself otherwise.
pub open spec fn key_of(segment: Seq<char>) -> Seq<char> {
    if is_placeholder(segment) {
        wildcard()
    } else {
        segment
    }
}

/// The keys of a pattern's segments.
pub open spec fn keys_of(segments: Seq<Seq<char>>) -> Seq<Seq<char>> {
    Seq::new(segments.len(), |i: int| key_of(segments[i]))
}

/// The segments of a route pattern: its pieces between slashes, without the
/// empty piece that a leading slash leaves in front.
pub open spec fn pattern_segments(pattern: Seq<char>) -> Seq<Seq<char>> {
    let pieces = split(pattern, '/');
    if pieces.len() > 0 && pieces[0].len() == 0 {
        pieces.skip(1)
    } else {
        pieces
    }
}

/// One node of the route tree, as plain mathematical values.
#[verifier::ext_equal]
pub struct RouteNode<H> {
    /// The placeholder name, where the node stands for a wildcard segment.
    pub placeholder: Option<Seq<char>>,
    /// The handlers registered at the node, by method.
    pub handlers: Map<Method, H>,
}

/// The route tree, as plain mathematical values: its nodes, each found by
/// the keys that lead to it from the root.
#[verifier::ext_equal]
pub struct RouterView<H> {
    pub nodes: Map<Seq<Seq<char>>, RouteNode<H>>,
}

/// How a walk through the route tree ended.
pub struct Walk {
    /// The keys of the node reached, where every segment found a child.
    pub reached: Option<Seq<Seq<char>>>,
    /// The slugs captured on the way.
    pub slugs: Map<Seq<char>, Seq<char>>,
}

impl<H> RouterView<H> {
    /// Whether the tree has its root, the node that no key leads to.
    pub open spec fn rooted(self) -> bool {
        self.nodes.contains_key(Seq::<Seq<char>>::empty())
    }

    /// Whether every node that stands under the wildcard key has a
    /// placeholder name, so that a wildcard step always captures.
    pub open spec fn wildcards_named(self) -> bool {
        forall|keys: Seq<Seq<char>>| #[trigger]
            self.nodes.contains_key(keys) && keys.len() > 0 && keys.last() == wildcard()
                ==> self.nodes[keys].placeholder is Some
    }

    /// The node that a pattern segment creates.
    pub open spec fn fresh(segment: Seq<char>) -> RouteNode<H> {
        RouteNode {
            placeholder: if is_placeholder(segment) {
                Some(placeholder_name(segment))
            } else {
                None
            },
            handlers: Map::empty(),
        }
    }

    /// The tree with a node for each of the first `n` segments of a pattern.
    /// A node that is there already stays as it is.
    pub open spec fn with_path(self, segments: Seq<Seq<char>>, n: nat) -> RouterView<H>
        decreases n,
    {
        if n == 0 || n > segments.len() {
            self
        } else {
            let grown = self.with_path(segments, (n - 1) as nat);
            let keys = keys_of(segments).take(n as int);
            if grown.nodes.contains_key(keys) {
                grown
            } else {
                RouterView { nodes: grown.nodes.insert(keys, Self::fresh(segments[n - 1])) }
            }
        }
    }

    /// The tree after `handler` was registered for `method` under the
    /// pattern with these segments: the nodes on the pattern's path exist,
    /// and the last of them holds the handler for the method, in place of
    /// any earlier one.
    pub open spec fn register(
        self,
        segments: Seq<Seq<char>>,
        method: Method,
        handler: H,
    ) -> RouterView<H> {
        let grown = self.with_path(segments, segments.len());
        let keys = keys_of(segments);
        let node = grown.nodes[keys];
        RouterView {
            nodes: grown.nodes.insert(
                keys,
                RouteNode { handlers: node.handlers.insert(method, handler), ..node },
            ),
        }
    }

    /// The walk from the node at `at` along `segments`. At each node a
    /// child under the segment itself is taken before the wildcard child; a
    /// wildcard child captures the segment under its placeholder name. The
    /// walk stops at the first segment that finds neither.
    pub open spec fn walk(
        self,
        at: Seq<Seq<char>>,
        segments: Seq<Seq<char>>,
        slugs: Map<Seq<char>, Seq<char>>,
    ) -> Walk
        decreases segments.len(),
    {
        if segments.len() == 0 {
            Walk { reached: Some(at), slugs }
        } else {
            let segment = segments.first();
            if self.nodes.contains_key(at.push(segment)) {
                self.walk(at.push(segment), segments.drop_first(), slugs)
            } else if self.nodes.contains_key(at.push(wildcard())) {
                let slugs = match self.nodes[at.push(wildcard())].placeholder {
                    Some(name) => slugs.insert(name, segment),
                    None => slugs,
                };
                self.walk(at.push(wildcard()), segments.drop_first(), slugs)
            } else {
                Walk { reached: None, slugs }
            }
        }
    }
}

/// What a request that ended its walk at some node, or nowhere, is
/// answered with.
pub enum Target<H> {
    /// No node was reached, or the node reached holds no handler at all.
    Missing,
    /// The node reached holds handlers, but none for the request's method.
    Refused(Set<Method>),
    /// The node reached holds this handler for the request's method.
    Handler(H),
}

impl<H> RouterView<H> {
    /// What a request for `method` whose walk ended at `reached` is
    /// answered with.
    pub open spec fn target(self, reached: Option<Seq<Seq<char>>>, method: Method) -> Target<H> {
        match reached {
            Some(keys) => {
                let handlers = self.nodes[keys].handlers;
                if handlers.contains_key(method) {
                    Target::Handler(handlers[method])
                } else if forall|other: Method| !handlers.contains_key(other) {
                    Target::Missing
                } else {
                    Target::Refused(handlers.dom())
                }
            },
            None => Target::Missing,
        }
    }
}

/// The tokens of the first `n` methods that are in `allowed`, in the order
/// of declaration, with a comma and a space between two of them.
pub open spec fn listed(allowed: Set<Method>, n: nat) -> Seq<char>
    decreases n,
{
    if n == 0 {
        Seq::empty()
    } else {
        let before = listed(allowed, (n - 1) as nat);
        let method = Method::at(n - 1);
        if !allowed.contains(method) {
            before
        } else if before.len() == 0 {
            method.token()
        } else {
            before + ", "@ + method.token()
        }
    }
}

/// The response to a path that leads to no handler.
pub open spec fn not_found() -> ResponseView {
    ResponseView { status: NOT_FOUND as int, message: Some("Não encontrado."@), data: None }
}

/// The response to a method that the node reached has no handler for; its
/// message lists the methods that the node does answer.
pub open spec fn method_not_allowed(allowed: Set<Method>) -> ResponseView {
    ResponseView {
        status: METHOD_NOT_ALLOWED as int,
        message: Some("Métodos disponíveis : ["@ + listed(allowed, METHODS as nat) + "]"@),
        data: None,
    }
}

/// A child under the segment itself is taken, whether or not the node has
/// a wildcard child too, and captures nothing.
pub proof fn lemma_literal_first<H>(
    router: RouterView<H>,
    at: Seq<Seq<char>>,
    segment: Seq<char>,
    rest: Seq<Seq<char>>,
    slugs: Map<Seq<char>, Seq<char>>,
)
    requires
        router.nodes.contains_key(at.push(segment)),
    ensures
        router.walk(at, seq![segment] + rest, slugs) == router.walk(at.push(segment), rest, slugs),
{
    let segments = seq![segment] + rest;
    assert(segments.first() == segment);
    assert(segments.drop_first() =~= rest);
}

/// Where no child stands under the segment itself, the wildcard child is
/// taken and captures the segment under its placeholder name.
pub proof fn lemma_wildcard_captures<H>(
    router: RouterView<H>,
    at: Seq<Seq<char>>,
    segment: Seq<char>,
    rest: Seq<Seq<char>>,
    slugs: Map<Seq<char>, Seq<char>>,
    name: Seq<char>,
)
    requires
        !router.nodes.contains_key(at.push(segment)),
        router.nodes.contains_key(at.push(wildcard())),
        router.nodes[at.push(wildcard())].placeholder == Some(name),
    ensures
        router.walk(at, seq![segment] + rest, slugs) == router.walk(
            at.push(wildcard()),
            rest,
            slugs.insert(name, segment),
        ),
{
    let segments = seq![segment] + rest;
    assert(segments.first() == segment);
    assert(segments.drop_first() =~= rest);
}

/// Where a segment finds neither child the walk ends there, whatever
/// follows: no other way through the tree is tried.
pub proof fn lemma_no_child_stops<H>(
    router: RouterView<H>,
    at: Seq<Seq<char>>,
    segment: Seq<char>,
    rest: Seq<Seq<char>>,
    slugs: Map<Seq<char>, Seq<char>>,
)
    requires
        !router.nodes.contains_key(at.push(segment)),
        !router.nodes.contains_key(at.push(wildcard())),
    ensures
        router.walk(at, seq![segment] + rest, slugs) == (Walk { reached: None, slugs }),
        router.target(router.walk(at, seq![segment] + rest, slugs).reached, Method::GET)
            is Missing,
{
    let segments = seq![segment] + rest;
    assert(segments.first() == segment);
}

/// Growing the tree along a pattern leaves every node that was there as it
/// was, and puts a node at the end of each of the first `n` segments.
pub proof fn lemma_with_path<H>(router: RouterView<H>, segments: Seq<Seq<char>>, n: nat)
    requires
        n <= segments.len(),
    ensures
        forall|keys: Seq<Seq<char>>| #[trigger]
            router.nodes.contains_key(keys) ==> router.with_path(segments, n).nodes.contains_key(
                keys,
            ) && router.with_path(segments, n).nodes[keys] == router.nodes[keys],
        forall|k: int|
            1 <= k <= n ==> router.with_path(segments, n).nodes.contains_key(
                #[trigger] keys_of(segments).take(k),
            ),
        forall|keys: Seq<Seq<char>>| #[trigger]
            router.with_path(segments, n).nodes.contains_key(keys) && !router.nodes.contains_key(
                keys,
            ) ==> router.with_path(segments, n).nodes[keys].handlers == Map::<Method, H>::empty(),
    decreases n,
{
    if n > 0 {
        lemma_with_path(router, segments, (n - 1) as nat);
    }
}

/// After a registration the node at the end of the pattern holds the new
/// handler for the method and the handlers it held for other methods, and
/// every other node that was there is as it was.
pub proof fn lemma_register<H>(
    router: RouterView<H>,
    segments: Seq<Seq<char>>,
    method: Method,
    handler: H,
)
    requires
        router.rooted(),
    ensures
        ({
            let after = router.register(segments, method, handler);
            let keys = keys_of(segments);
            &&& after.nodes.contains_key(keys)
            &&& after.nodes[keys].handlers.contains_key(method)
            &&& after.nodes[keys].handlers[method] == handler
            &&& forall|other: Method|
                other != method ==> (#[trigger] after.nodes[keys].handlers.contains_key(other) <==> (
                router.nodes.contains_key(keys) && router.nodes[keys].handlers.contains_key(other)))
            &&& forall|other: Method|
                other != method && #[trigger] after.nodes[keys].handlers.contains_key(other)
                    ==> after.nodes[keys].handlers[other] == router.nodes[keys].handlers[other]
            &&& forall|elsewhere: Seq<Seq<char>>| #[trigger]
                router.nodes.contains_key(elsewhere) && elsewhere != keys
                    ==> after.nodes.contains_key(elsewhere) && after.nodes[elsewhere]
                    == router.nodes[elsewhere]
        }),
{
    lemma_with_path(router, segments, segments.len());
    let grown = router.with_path(segments, segments.len());
    let keys = keys_of(segments);
    assert(keys.take(segments.len() as int) =~= keys);
    if segments.len() == 0 {
        assert(grown == router);
        assert(keys =~= Seq::<Seq<char>>::empty());
    } else {
        assert(grown.nodes.contains_key(keys_of(segments).take(segments.len() as int)));
    }
}

/// Growing the tree along a pattern keeps every node under the wildcard
/// key named.
pub proof fn lemma_with_path_keeps_names<H>(router: RouterView<H>, segments: Seq<Seq<char>>, n: nat)
    requires
        router.wildcards_named(),
        n <= segments.len(),
    ensures
        router.with_path(segments, n).wildcards_named(),
    decreases n,
{
    if n > 0 {
        lemma_with_path_keeps_names(router, segments, (n - 1) as nat);
        let keys = keys_of(segments).take(n as int);
        assert(keys.last() == key_of(segments[n - 1]));
        reveal_strlit("{}");
    }
}

/// A registration keeps every node under the wildcard key named.
pub proof fn lemma_register_keeps_names<H>(
    router: RouterView<H>,
    segments: Seq<Seq<char>>,
    method: Method,
    handler: H,
)
    requires
        router.rooted(),
        router.wildcards_named(),
    ensures
        router.register(segments, method, handler).wildcards_named(),
{
    lemma_with_path_keeps_names(router, segments, segments.len());
    lemma_with_path(router, segments, segments.len());
    let grown = router.with_path(segments, segments.len());
    let keys = keys_of(segments);
    assert(keys.take(segments.len() as int) =~= keys);
    if segments.len() > 0 {
        assert(grown.nodes.contains_key(keys_of(segments).take(segments.len() as int)));
    }
}

/// Along a path whose every prefix has a node, the walk takes the child
/// under each segment itself and captures nothing.
pub proof fn lemma_walk_along<H>(
    router: RouterView<H>,
    segments: Seq<Seq<char>>,
    done: int,
    slugs: Map<Seq<char>, Seq<char>>,
)
    requires
        0 <= done <= segments.len(),
        forall|k: int| 1 <= k <= segments.len() ==> router.nodes.contains_key(#[trigger] segments.take(k)),
    ensures
        router.walk(segments.take(done), segments.skip(done), slugs) == (Walk {
            reached: Some(segments),
            slugs,
        }),
    decreases segments.len() - done,
{
    if done == segments.len() {
        assert(segments.take(done) =~= segments);
    } else {
        let rest = segments.skip(done);
        assert(segments.take(done).push(rest.first()) =~= segments.take(done + 1));
        assert(rest.drop_first() =~= segments.skip(done + 1));
        lemma_walk_along(router, segments, done + 1, slugs);
    }
}

/// A route registered under a pattern without placeholders is found: the
/// walk along the pattern's own segments reaches the pattern's node, and a
/// request for the method is answered by the handler.
pub proof fn lemma_registered_route_is_found<H>(
    router: RouterView<H>,
    segments: Seq<Seq<char>>,
    method: Method,
    handler: H,
    slugs: Map<Seq<char>, Seq<char>>,
)
    requires
        router.rooted(),
        forall|i: int| 0 <= i < segments.len() ==> !is_placeholder(#[trigger] segments[i]),
    ensures
        ({
            let after = router.register(segments, method, handler);
            &&& after.walk(Seq::empty(), segments, slugs) == (Walk { reached: Some(segments), slugs })
            &&& after.target(Some(segments), method) == Target::Handler(handler)
        }),
{
    let after = router.register(segments, method, handler);
    let grown = router.with_path(segments, segments.len());
    assert(keys_of(segments) =~= segments);
    lemma_with_path(router, segments, segments.len());
    lemma_register(router, segments, method, handler);
    assert forall|k: int| 1 <= k <= segments.len() implies after.nodes.contains_key(
        #[trigger] segments.take(k),
    ) by {
        assert(grown.nodes.contains_key(keys_of(segments).take(k)));
    }
    lemma_walk_along(after, segments, 0, slugs);
    assert(segments.take(0) =~= Seq::<Seq<char>>::empty());
    assert(segments.skip(0) =~= segments);
}

/// The name of a placeholder segment, and nothing for any other segment.
pub fn placeholder_of(segment: &str) -> (name: Option<String>)
    ensures
        optional_text(name) == if is_placeholder(segment@) {
            Some(placeholder_name(segment@))
        } else {
            None
        },
{
    let len: usize = segment.unicode_len();
    if len >= 2 && segment.get_char(0) == '{' && segment.get_char(len - 1) == '}' {
        Some(segment.substring_char(1, len - 1).to_string())
    } else {
        None
    }
}

/// Whether a handler may be called with every request.
pub open spec fn accepts_all<H: Fn(&Request) -> Result<Response, Response>>(handler: H) -> bool {
    forall|request: Request| call_requires(handler, (&request,))
}

/// One node of the route tree.
pub struct Node<H> {
    handlers: Vec<Option<H>>,
    slug_placeholder: Option<String>,
    children: StringHashMap<usize>,
}

impl<H> View for Node<H> {
    type V = RouteNode<H>;

    closed spec fn view(&self) -> RouteNode<H> {
        RouteNode {
            placeholder: optional_text(self.slug_placeholder),
            handlers: Map::new(
                |method: Method| self.handlers@[method.ordinal()] is Some,
                |method: Method| self.handlers@[method.ordinal()]->0,
            ),
        }
    }
}

/// The route tree. Its nodes stand in one list, the root first, and each
/// node finds its children by their place in the list.
pub struct Router<H> {
    nodes: Vec<Node<H>>,
    paths: Ghost<Seq<Seq<Seq<char>>>>,
    slots: Ghost<Map<Seq<Seq<char>>, int>>,
}

impl<H> View for Router<H> {
    type V = RouterView<H>;

    closed spec fn view(&self) -> RouterView<H> {
        RouterView {
            nodes: Map::new(
                |keys: Seq<Seq<char>>| self.slots@.contains_key(keys),
                |keys: Seq<Seq<char>>| self.nodes@[self.slots@[keys]]@,
            ),
        }
    }
}

impl<H: Fn(&Request) -> Result<Response, Response>> Router<H> {
    /// The nodes and their keys match one to one: the node at each slot is
    /// found under its keys, and each keys lead to the slot that holds them.
    spec fn keys_match_slots(&self) -> bool {
        &&& forall|keys: Seq<Seq<char>>| #[trigger]
            self.slots@.contains_key(keys) ==> 0 <= self.slots@[keys] < self.nodes@.len()
                && self.paths@[self.slots@[keys]] == keys
        &&& forall|slot: int|
            0 <= slot < self.nodes@.len() ==> self.slots@.contains_key(#[trigger] self.paths@[slot])
                && self.slots@[self.paths@[slot]] == slot
    }

    /// Every child link leads to the node whose keys are the parent's and
    /// the key of the link.
    spec fn links_lead_down(&self) -> bool {
        forall|slot: int, key: Seq<char>|
            0 <= slot < self.nodes@.len() && #[trigger] self.nodes@[slot].children@.contains_key(key)
                ==> {
                let child = self.nodes@[slot].children@[key] as int;
                0 <= child < self.nodes@.len() && self.paths@[child] == self.paths@[slot].push(key)
            }
    }

    /// Every node but the root is the child of the node that its keys but
    /// the last lead to, under its last key.
    spec fn nodes_hang_on_parents(&self) -> bool {
        forall|slot: int|
            0 < slot < self.nodes@.len() ==> {
                let keys = #[trigger] self.paths@[slot];
                &&& keys.len() > 0
                &&& self.slots@.contains_key(keys.drop_last())
                &&& self.nodes@[self.slots@[keys.drop_last()]].children@.contains_key(keys.last())
                &&& self.nodes@[self.slots@[keys.drop_last()]].children@[keys.last()] == slot
            }
    }

    /// Every node has a place for each method, and every handler in a place
    /// accepts every request.
    spec fn handlers_are_callable(&self) -> bool {
        &&& forall|slot: int|
            0 <= slot < self.nodes@.len() ==> (#[trigger] self.nodes@[slot]).handlers@.len()
                == METHODS
        &&& forall|slot: int, place: int|
            0 <= slot < self.nodes@.len() && 0 <= place < METHODS
                && (#[trigger] self.nodes@[slot].handlers@[place]) is Some ==> accepts_all(
                self.nodes@[slot].handlers@[place]->0,
            )
    }

    /// Every node that stands under the wildcard key has a placeholder
    /// name.
    spec fn wildcards_have_names(&self) -> bool {
        forall|slot: int|
            0 < slot < self.nodes@.len() && (#[trigger] self.paths@[slot]).last() == wildcard()
                ==> self.nodes@[slot].slug_placeholder is Some
    }

    /// Whether the tree is well-formed: the root stands first, the nodes
    /// and their keys match one to one, the child links and the keys agree,
    /// every node under the wildcard key has a placeholder name, and every
    /// handler accepts every request.
    pub closed spec fn wf(&self) -> bool {
        &&& self.nodes@.len() == self.paths@.len()
        &&& self.nodes@.len() > 0
        &&& self.paths@[0] == Seq::<Seq<char>>::empty()
        &&& self.keys_match_slots()
        &&& self.links_lead_down()
        &&& self.nodes_hang_on_parents()
        &&& self.wildcards_have_names()
        &&& self.handlers_are_callable()
    }

    /// In a well-formed tree every node under the wildcard key has a
    /// placeholder name.
    pub proof fn lemma_wildcards_named(&self)
        requires
            self.wf(),
        ensures
            self@.wildcards_named(),
    {
        assert forall|keys: Seq<Seq<char>>| #[trigger]
            self@.nodes.contains_key(keys) && keys.len() > 0 && keys.last()
                == wildcard() implies self@.nodes[keys].placeholder is Some by {
            let slot = self.slots@[keys];
            assert(self.paths@[slot] == keys);
            assert(slot != 0);
        }
    }

    /// A well-formed tree has its root.
    pub proof fn lemma_rooted(&self)
        requires
            self.wf(),
        ensures
            self@.rooted(),
    {
        assert(self.slots@.contains_key(self.paths@[0]));
    }

    /// In a well-formed tree every handler accepts every request.
    pub proof fn lemma_handlers_accept(&self, keys: Seq<Seq<char>>, method: Method)
        requires
            self.wf(),
            self@.nodes.contains_key(keys),
            self@.nodes[keys].handlers.contains_key(method),
        ensures
            accepts_all(self@.nodes[keys].handlers[method]),
    {
        let slot = self.slots@[keys];
        assert(self.nodes@[slot].handlers@[method.ordinal()] is Some);
    }

    /// A node has a child under `key` exactly where the tree has a node with
    /// the node's keys and `key`.
    proof fn lemma_child(&self, slot: int, key: Seq<char>)
        requires
            self.wf(),
            0 <= slot < self.nodes@.len(),
        ensures
            self.nodes@[slot].children@.contains_key(key) <==> self@.nodes.contains_key(
                self.paths@[slot].push(key),
            ),
            self.nodes@[slot].children@.contains_key(key) ==> self.slots@[self.paths@[slot].push(
                key,
            )] == self.nodes@[slot].children@[key],
    {
        let keys = self.paths@[slot].push(key);
        if self.nodes@[slot].children@.contains_key(key) {
            let child = self.nodes@[slot].children@[key] as int;
            assert(self.paths@[child] == keys);
            assert(self.slots@.contains_key(self.paths@[child]));
        }
        if self@.nodes.contains_key(keys) {
            let child = self.slots@[keys];
            assert(self.paths@[child] == keys);
            assert(child != 0);
            assert(keys.drop_last() =~= self.paths@[slot]);
            assert(keys.last() == key);
            assert(self.slots@.contains_key(self.paths@[slot]));
        }
    }

    /// The child of the node at `parent` under `key`.
    fn child(&self, parent: usize, key: &str) -> (found: Option<usize>)
        requires
            self.wf(),
            parent < self.nodes@.len(),
        ensures
            match found {
                Some(slot) => {
                    &&& slot < self.nodes@.len()
                    &&& self.nodes@[parent as int].children@.contains_key(key@)
                    &&& self@.nodes.contains_key(self.paths@[parent as int].push(key@))
                    &&& self.paths@[slot as int] == self.paths@[parent as int].push(key@)
                },
                None => {
                    &&& !self.nodes@[parent as int].children@.contains_key(key@)
                    &&& !self@.nodes.contains_key(self.paths@[parent as int].push(key@))
                },
            },
    {
        proof {
            self.lemma_child(parent as int, key@);
        }
        match self.nodes[parent].children.get(key) {
            Some(slot) => Some(*slot),
            None => None,
        }
    }

    /// Hangs a new node without handlers under the node at `parent`.
    fn add_child(&mut self, parent: usize, key: &str, slug_placeholder: Option<String>) -> (slot:
        usize)
        requires
            old(self).wf(),
            parent < old(self).nodes@.len(),
            !old(self).nodes@[parent as int].children@.contains_key(key@),
            key@ == wildcard() ==> slug_placeholder is Some,
        ensures
            final(self).wf(),
            slot == old(self).nodes@.len(),
            final(self).paths@ == old(self).paths@.push(old(self).paths@[parent as int].push(key@)),
            final(self)@ == (RouterView {
                nodes: old(self)@.nodes.insert(
                    old(self).paths@[parent as int].push(key@),
                    RouteNode { placeholder: optional_text(slug_placeholder), handlers: Map::empty() },
                ),
            }),
    {
        let ghost keys = self.paths@[parent as int].push(key@);
        proof {
            self.lemma_child(parent as int, key@);
        }
        let slot: usize = self.nodes.len();
        self.nodes.push(Node::bare(slug_placeholder));
        self.nodes[parent].children.insert(key.to_string(), slot);
        self.paths = Ghost(self.paths@.push(keys));
        self.slots = Ghost(self.slots@.insert(keys, slot as int));
        proof {
            assert(keys.drop_last() =~= old(self).paths@[parent as int]);
            assert forall|at: int| 0 <= at < self.nodes@.len() implies self.slots@.contains_key(
                #[trigger] self.paths@[at],
            ) && self.slots@[self.paths@[at]] == at by {
                if at < slot {
                    assert(old(self).slots@.contains_key(old(self).paths@[at]));
                }
            }
            assert forall|at: int, other: Seq<char>|
                0 <= at < self.nodes@.len() && #[trigger] self.nodes@[at].children@.contains_key(
                    other,
                ) implies 0 <= self.nodes@[at].children@[other] < self.nodes@.len()
                && self.paths@[self.nodes@[at].children@[other] as int] == self.paths@[at].push(
                other,
            ) by {
                if at == parent as int {
                    if other != key@ {
                        assert(old(self).nodes@[at].children@.contains_key(other));
                    }
                } else if at < slot {
                    assert(old(self).nodes@[at].children@.contains_key(other));
                }
            }
            assert forall|at: int| 0 < at < self.nodes@.len() implies (#[trigger] self.paths@[at]).len()
                > 0 && self.slots@.contains_key(self.paths@[at].drop_last())
                && self.nodes@[self.slots@[self.paths@[at].drop_last()]].children@.contains_key(
                self.paths@[at].last(),
            )
                && self.nodes@[self.slots@[self.paths@[at].drop_last()]].children@[self.paths@[at].last()]
                == at by {
                if at < slot {
                    let above = old(self).slots@[old(self).paths@[at].drop_last()];
                    assert(old(self).nodes@[above].children@.contains_key(
                        old(self).paths@[at].last(),
                    ));
                } else {
                    assert(old(self).slots@.contains_key(old(self).paths@[parent as int]));
                }
            }
            assert forall|at: int, place: int|
                0 <= at < self.nodes@.len() && 0 <= place < METHODS
                    && (#[trigger] self.nodes@[at].handlers@[place]) is Some implies accepts_all(
                self.nodes@[at].handlers@[place]->0,
            ) by {
                if at < slot {
                    assert(old(self).nodes@[at].handlers@[place] is Some);
                }
            }
            assert(self.wf());
            assert(self@ =~~= (RouterView {
                nodes: old(self)@.nodes.insert(
                    keys,
                    RouteNode { placeholder: optional_text(slug_placeholder), handlers: Map::empty() },
                ),
            })) by {
                assert forall|other: Seq<Seq<char>>| #[trigger]
                    old(self).slots@.contains_key(other) implies self.nodes@[old(
                    self,
                ).slots@[other]]@ == old(self).nodes@[old(self).slots@[other]]@ by {
                    let at = old(self).slots@[other];
                    assert(self.nodes@[at].handlers == old(self).nodes@[at].handlers);
                    assert(self.nodes@[at]@.handlers =~= old(self).nodes@[at]@.handlers);
                }
            }
        }
        slot
    }

    /// Puts `handler` in the place of `method` at the node at `slot`.
    fn set_handler(&mut self, slot: usize, method: Method, handler: H)
        requires
            old(self).wf(),
            slot < old(self).nodes@.len(),
            accepts_all(handler),
        ensures
            final(self).wf(),
            final(self).paths@ == old(self).paths@,
            final(self)@ == (RouterView {
                nodes: old(self)@.nodes.insert(
                    old(self).paths@[slot as int],
                    RouteNode {
                        handlers: old(self)@.nodes[old(self).paths@[slot as int]].handlers.insert(
                            method,
                            handler,
                        ),
                        ..old(self)@.nodes[old(self).paths@[slot as int]]
                    },
                ),
            }),
    {
        let place: usize = method.index();
        assert(self.nodes@[slot as int].handlers@.len() == METHODS);
        self.nodes[slot].handlers.set(place, Some(handler));
        proof {
            let keys = old(self).paths@[slot as int];
            assert(old(self).slots@.contains_key(old(self).paths@[slot as int]));
            assert forall|at: int, other: Seq<char>|
                0 <= at < self.nodes@.len() && #[trigger] self.nodes@[at].children@.contains_key(
                    other,
                ) implies 0 <= self.nodes@[at].children@[other] < self.nodes@.len()
                && self.paths@[self.nodes@[at].children@[other] as int] == self.paths@[at].push(
                other,
            ) by {
                assert(old(self).nodes@[at].children@.contains_key(other));
            }
            assert forall|at: int| 0 < at < self.nodes@.len() implies (#[trigger] self.paths@[at]).len()
                > 0 && self.slots@.contains_key(self.paths@[at].drop_last())
                && self.nodes@[self.slots@[self.paths@[at].drop_last()]].children@.contains_key(
                self.paths@[at].last(),
            )
                && self.nodes@[self.slots@[self.paths@[at].drop_last()]].children@[self.paths@[at].last()]
                == at by {
                let above = old(self).slots@[old(self).paths@[at].drop_last()];
                assert(old(self).nodes@[above].children@.contains_key(old(self).paths@[at].last()));
            }
            assert forall|at: int, other: int|
                0 <= at < self.nodes@.len() && 0 <= other < METHODS
                    && (#[trigger] self.nodes@[at].handlers@[other]) is Some implies accepts_all(
                self.nodes@[at].handlers@[other]->0,
            ) by {
                if at != slot as int || other != place as int {
                    assert(old(self).nodes@[at].handlers@[other] is Some);
                }
            }
            assert(self.wf());
            let node = old(self)@.nodes[keys];
            assert(self.nodes@[slot as int]@ =~~= (RouteNode {
                handlers: node.handlers.insert(method, handler),
                ..node
            })) by {
                assert forall|other: Method| other.ordinal() == method.ordinal() implies other
                    == method by {}
            }
            assert(self@ =~~= (RouterView {
                nodes: old(self)@.nodes.insert(
                    keys,
                    RouteNode { handlers: node.handlers.insert(method, handler), ..node },
                ),
            })) by {
                assert forall|other: Seq<Seq<char>>| #[trigger]
                    old(self).slots@.contains_key(other) && other != keys implies self.nodes@[old(
                    self,
                ).slots@[other]]@ == old(self).nodes@[old(self).slots@[other]]@ by {
                    let at = old(self).slots@[other];
                    assert(at != slot as int);
                }
            }
        }
    }

    /// Registers `handler` for `method` under the pattern `route`. A
    /// handler registered before for the same pattern and method is
    /// replaced; handlers for other methods stay.
    pub fn subscribe_route(&mut self, method: Method, route: &str, handler: H)
        requires
            old(self).wf(),
            accepts_all(handler),
        ensures
            final(self).wf(),
            final(self)@ == old(self)@.register(pattern_segments(route@), method, handler),
    {
        let pieces: Vec<&str> = split_text(route, '/');
        let skip: usize = if pieces.len() > 0 && pieces[0].is_empty() {
            1
        } else {
            0
        };
        let ghost segments = pattern_segments(route@);
        assert(segments =~= texts(pieces@).skip(skip as int));
        assert(keys_of(segments).take(0) =~= Seq::<Seq<char>>::empty());
        let mut current: usize = 0;
        let mut i: usize = skip;
        while i < pieces.len()
            invariant
                self.wf(),
                skip <= i <= pieces@.len(),
                current < self.nodes@.len(),
                segments == texts(pieces@).skip(skip as int),
                self.paths@[current as int] == keys_of(segments).take(i - skip),
                self@ == old(self)@.with_path(segments, (i - skip) as nat),
            decreases pieces@.len() - i,
        {
            let segment: &str = pieces[i];
            let placeholder: Option<String> = placeholder_of(segment);
            let key: &str = if placeholder.is_some() {
                "{}"
            } else {
                segment
            };
            assert(segments[i - skip] == segment@);
            assert(key@ == key_of(segment@));
            assert(key@ == wildcard() ==> placeholder is Some) by {
                reveal_strlit("{}");
            }
            assert(keys_of(segments).take(i - skip + 1) =~= self.paths@[current as int].push(key@));
            current = match self.child(current, key) {
                Some(slot) => slot,
                None => self.add_child(current, key, placeholder),
            };
            i += 1;
        }
        assert(keys_of(segments).take(segments.len() as int) =~= keys_of(segments));
        self.set_handler(current, method, handler);
    }

    /// A tree with a root and no route.
    pub fn new() -> (router: Router<H>)
        ensures
            router.wf(),
            router@ == (RouterView::<H> {
                nodes: Map::empty().insert(
                    Seq::<Seq<char>>::empty(),
                    RouteNode { placeholder: None, handlers: Map::empty() },
                ),
            }),
    {
        let root: Node<H> = Node::bare(None);
        let mut nodes: Vec<Node<H>> = Vec::new();
        nodes.push(root);
        let paths: Ghost<Seq<Seq<Seq<char>>>> = Ghost(
            Seq::empty().push(Seq::<Seq<char>>::empty()),
        );
        let slots: Ghost<Map<Seq<Seq<char>>, int>> = Ghost(
            Map::empty().insert(Seq::<Seq<char>>::empty(), 0int),
        );
        let router = Router { nodes, paths, slots };
        assert(router@ =~~= (RouterView::<H> {
            nodes: Map::empty().insert(
                Seq::<Seq<char>>::empty(),
                RouteNode { placeholder: None, handlers: Map::empty() },
            ),
        }));
        router
    }
}

/// Builds the response to a path that leads to no handler.
pub fn not_found_response() -> (response: Response)
    ensures
        response@ == not_found(),
{
    Response::status(NOT_FOUND).message("Não encontrado.")
}

/// Dispatches `request` through the route tree: walks the tree along the
/// segments of the request's path, records the segments that wildcards
/// capture in the request's slugs, and answers with what the handler for
/// the request's method at the node reached returns, or with a response
/// that says why there is none.
pub fn handle<H: Fn(&Request) -> Result<Response, Response>>(
    request: &mut Request,
    router: &Router<H>,
) -> (response: Response)
    requires
        router.wf(),
    ensures
        final(request)@ == (RequestView {
            slugs: router@.walk(
                Seq::empty(),
                split(old(request)@.path, '/'),
                old(request)@.slugs,
            ).slugs,
            ..old(request)@
        }),
        match router@.target(
            router@.walk(Seq::empty(), split(old(request)@.path, '/'), old(request)@.slugs).reached,
            old(request)@.method,
        ) {
            Target::Missing => response@ == not_found(),
            Target::Refused(allowed) => response@ == method_not_allowed(allowed),
            Target::Handler(handler) => call_ensures(
                handler,
                (&*final(request),),
                Ok::<Response, Response>(response),
            ) || call_ensures(handler, (&*final(request),), Err::<Response, Response>(response)),
        },
{
    let ghost segments = split(request@.path, '/');
    let ghost goal = router@.walk(Seq::empty(), segments, request@.slugs);
    let path: String = request.path.clone();
    let pieces: Vec<&str> = split_text(path.as_str(), '/');
    let mut current: usize = 0;
    let mut i: usize = 0;
    assert(texts(pieces@).skip(0) =~= segments);
    while i < pieces.len()
        invariant
            router.wf(),
            i <= pieces@.len(),
            current < router.nodes@.len(),
            texts(pieces@) == segments,
            segments == split(old(request)@.path, '/'),
            goal == router@.walk(Seq::empty(), segments, old(request)@.slugs),
            router@.walk(
                router.paths@[current as int],
                segments.skip(i as int),
                value_texts(request.slugs@),
            ) == goal,
            request@ == (RequestView { slugs: value_texts(request.slugs@), ..old(request)@ }),
        decreases pieces@.len() - i,
    {
        let segment: &str = pieces[i];
        let ghost rest = segments.skip(i as int);
        assert(rest.first() == segment@);
        assert(rest.drop_first() =~= segments.skip(i + 1));
        match router.child(current, segment) {
            Some(slot) => {
                current = slot;
            },
            None => match router.child(current, "{}") {
                Some(slot) => {
                    proof {
                        assert(router.slots@.contains_key(router.paths@[slot as int]));
                    }
                    match &router.nodes[slot].slug_placeholder {
                        Some(name) => {
                            let captured: String = segment.to_string();
                            proof {
                                lemma_value_texts_insert(request.slugs@, name@, captured);
                            }
                            request.slugs.insert(name.clone(), captured);
                        },
                        None => {},
                    }
                    current = slot;
                },
                None => {
                    return not_found_response();
                },
            },
        }
        i += 1;
    }
    assert(segments.skip(i as int).len() == 0);
    proof {
        assert(router.slots@.contains_key(router.paths@[current as int]));
    }
    let node: &Node<H> = &router.nodes[current];
    let place: usize = request.method.index();
    match &node.handlers[place] {
        Some(handler) => {
            proof {
                assert(node.handlers@[place as int] is Some);
            }
            match handler(request) {
                Ok(response) => response,
                Err(response) => response,
            }
        },
        None => match node.allowed() {
            Some(message) => Response::status(METHOD_NOT_ALLOWED).message(message.as_str()),
            None => not_found_response(),
        },
    }
}

impl<H> Node<H> {
    /// The message that lists the methods with a handler at the node, where
    /// there is one.
    fn allowed(&self) -> (message: Option<String>)
        requires
            self.handlers@.len() == METHODS,
        ensures
            match message {
                Some(message) => (exists|method: Method| self@.handlers.contains_key(method))
                    && Some(message@) == method_not_allowed(self@.handlers.dom()).message,
                None => forall|method: Method| !self@.handlers.contains_key(method),
            },
    {
        let ghost allowed = self@.handlers.dom();
        let mut message: String = String::from_str("Métodos disponíveis : [");
        let mut any: bool = false;
        let mut place: usize = 0;
        assert(message@ =~= "Métodos disponíveis : ["@ + listed(allowed, 0));
        while place < METHODS
            invariant
                place <= METHODS,
                self.handlers@.len() == METHODS,
                allowed == self@.handlers.dom(),
                message@ == "Métodos disponíveis : ["@ + listed(allowed, place as nat),
                any == (listed(allowed, place as nat).len() > 0),
                any == exists|before: int|
                    0 <= before < place && (#[trigger] self.handlers@[before]) is Some,
            decreases METHODS - place,
        {
            let method: Method = Method::from_index(place);
            let ghost before = listed(allowed, place as nat);
            assert(allowed.contains(method) == self.handlers@[place as int] is Some);
            if self.handlers[place].is_some() {
                let name: &'static str = method.name();
                proof {
                    lemma_token_not_empty(method);
                }
                if any {
                    message.append(", ");
                }
                message.append(name);
                any = true;
                assert(message@ =~= "Métodos disponíveis : ["@ + listed(
                    allowed,
                    (place + 1) as nat,
                ));
            }
            place += 1;
        }
        if any {
            message.append("]");
            let ghost witness = choose|before: int|
                0 <= before < METHODS && (#[trigger] self.handlers@[before]) is Some;
            assert(self@.handlers.contains_key(Method::at(witness)));
            Some(message)
        } else {
            assert forall|method: Method| !self@.handlers.contains_key(method) by {
                assert(0 <= method.ordinal() < METHODS);
            }
            None
        }
    }

    /// A node without handlers or children.
    fn bare(slug_placeholder: Option<String>) -> (node: Node<H>)
        ensures
            node@ == (RouteNode::<H> {
                placeholder: optional_text(slug_placeholder),
                handlers: Map::empty(),
            }),
            node.handlers@.len() == METHODS,
            forall|place: int| 0 <= place < METHODS ==> node.handlers@[place] is None,
            node.children@ == Map::<Seq<char>, usize>::empty(),
            node.slug_placeholder == slug_placeholder,
    {
        let mut handlers: Vec<Option<H>> = Vec::new();
        while handlers.len() < METHODS
            invariant
                handlers@.len() <= METHODS,
                forall|place: int| 0 <= place < handlers@.len() ==> handlers@[place] is None,
            decreases METHODS - handlers@.len(),
        {
            handlers.push(None);
        }
        let node = Node { handlers, slug_placeholder, children: StringHashMap::new() };
        assert(node@.handlers =~= Map::<Method, H>::empty());
        node
    }
}

} // verus!
