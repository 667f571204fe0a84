//! Routing: a tree of path segments that maps request paths to route functions.
pub mod laws;
pub mod paths;
pub mod route_handler;

use crate::str_map::StrMap;
use vstd::prelude::*;

verus! {

/// The arguments that routing collects: query parameters, the fragment, the values
/// of variable segments and the remainder matched by a wildcard.
pub type Args = StrMap;

/// A node of the routing tree. `F` is the type of the route functions.
pub struct Paths<F> {
    name: String,
    function: Option<F>,
    sub: Vec<Paths<F>>,
    variables: Vec<Paths<F>>,
    wildcard: bool,
}

/// The routing trees of a server, one for each request method.
pub struct RouteHandler<F> {
    get: Paths<F>,
    head: Paths<F>,
    post: Paths<F>,
    put: Paths<F>,
    delete: Paths<F>,
    trace: Paths<F>,
    options: Paths<F>,
    connect: Paths<F>,
    patch: Paths<F>,
}

/// The content of a routing tree node.
pub struct PathsView<F> {
    pub name: Seq<char>,
    pub function: Option<F>,
    pub sub: Seq<PathsView<F>>,
    pub variables: Seq<PathsView<F>>,
    pub wildcard: bool,
}

impl<F> View for Paths<F> {
    type V = PathsView<F>;

    open spec fn view(&self) -> PathsView<F> {
        self.view_node()
    }
}

/// The contents of a sequence of routing tree nodes.
pub open spec fn views_of<F>(s: Seq<Paths<F>>) -> Seq<PathsView<F>> {
    Seq::new(s.len(), |i: int| s[i]@)
}

impl<F> Paths<F> {
    proof fn lemma_view_children(&self)
        ensures
            self@.name == self.name@,
            self@.function == self.function,
            self@.wildcard == self.wildcard,
            self@.sub == views_of(self.sub@),
            self@.variables == views_of(self.variables@),
    {
        assert(self@.sub =~= views_of(self.sub@));
        assert(self@.variables =~= views_of(self.variables@));
    }
}

impl<F> PathsView<F> {
    /// A node without name, function or children.
    pub open spec fn empty() -> PathsView<F> {
        PathsView {
            name: Seq::empty(),
            function: None,
            sub: Seq::empty(),
            variables: Seq::empty(),
            wildcard: false,
        }
    }
}

impl<F> Paths<F> {
    pub closed spec fn view_node(self) -> PathsView<F>
        decreases self,
    {
        let sub = self.sub@;
        let variables = self.variables@;
        proof {
            assert(decreases_to!(self => self.sub));
            assert(decreases_to!(self.sub => sub));
            assert(decreases_to!(self => self.variables));
            assert(decreases_to!(self.variables => variables));
            assert(forall|i: int| 0 <= i < sub.len() ==> decreases_to!(sub => sub[i]));
            assert(forall|i: int| 0 <= i < variables.len() ==> decreases_to!(variables => variables[i]));
        }
        PathsView {
            name: self.name@,
            function: self.function,
            sub: Seq::new(
                sub.len(),
                |i: int|
                    if 0 <= i < sub.len() {
                        sub[i].view_node()
                    } else {
                        PathsView::empty()
                    },
            ),
            variables: Seq::new(
                variables.len(),
                |i: int|
                    if 0 <= i < variables.len() {
                        variables[i].view_node()
                    } else {
                        PathsView::empty()
                    },
            ),
            wildcard: self.wildcard,
        }
    }
}

} // verus!
