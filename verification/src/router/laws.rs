//! What routing gives back of what was stored.
use super::paths::{
    added_to, args_pairs, args_with_query, find_named, is_first_named, joined,
    lemma_find_named_is, lemma_split_on_len, pairs_upto, query_pairs, route_request,
    route_segments, route_vars, split_at_last, split_on, uri_parts,
};
use super::PathsView;
use crate::text::{last_index, lemma_last_index_is};
use vstd::prelude::*;

verus! {

impl<F> PathsView<F> {
    /// A tree without wildcard and variable nodes.
    pub open spec fn is_static(self) -> bool
        decreases self,
    {
        &&& !self.wildcard
        &&& self.variables.len() == 0
        &&& all_static(self.sub)
    }
}

/// Every tree in `s` is free of wildcard and variable nodes.
pub open spec fn all_static<F>(s: Seq<PathsView<F>>) -> bool
    decreases s,
{
    if s.len() == 0 {
        true
    } else {
        s.last().is_static() && all_static(s.drop_last())
    }
}

proof fn lemma_all_static<F>(s: Seq<PathsView<F>>)
    ensures
        all_static(s) <==> forall|i: int| 0 <= i < s.len() ==> #[trigger] s[i].is_static(),
    decreases s.len(),
{
    if s.len() > 0 {
        lemma_all_static(s.drop_last());
        if forall|i: int| 0 <= i < s.len() ==> #[trigger] s[i].is_static() {
            assert forall|i: int| 0 <= i < s.drop_last().len() implies #[trigger] s.drop_last()[i].is_static() by {
                assert(s.drop_last()[i] == s[i]);
            }
            assert(s[s.len() - 1].is_static());
        }
        if all_static(s) {
            assert forall|i: int| 0 <= i < s.len() implies #[trigger] s[i].is_static() by {
                if i < s.len() - 1 {
                    assert(s.drop_last()[i] == s[i]);
                    assert(s.drop_last()[i].is_static());
                }
            }
        }
    }
}

/// Route segments that name fixed nodes: none is empty, and none starts with `*` or `:`.
pub open spec fn plain_route(route: Seq<Seq<char>>) -> bool {
    forall|i: int|
        0 <= i < route.len() ==> #[trigger] route[i].len() > 0 && route[i][0] != '*' && route[i][0]
            != ':'
}

proof fn lemma_find_named_some<F>(s: Seq<PathsView<F>>, name: Seq<char>, i: int)
    requires
        0 <= i < s.len(),
        s[i].name == name,
    ensures
        find_named(s, name) matches Some(j) && is_first_named(s, name, j),
    decreases i,
{
    if exists|j: int| 0 <= j < i && s[j].name == name {
        let j = choose|j: int| 0 <= j < i && s[j].name == name;
        lemma_find_named_some(s, name, j);
    } else {
        assert(is_first_named(s, name, i));
    }
}

proof fn lemma_find_named_in_range<F>(s: Seq<PathsView<F>>, name: Seq<char>)
    ensures
        find_named(s, name) matches Some(j) ==> is_first_named(s, name, j),
{
    if exists|i: int| 0 <= i < s.len() && s[i].name == name {
        let i = choose|i: int| 0 <= i < s.len() && s[i].name == name;
        lemma_find_named_some(s, name, i);
    }
}

/// Replacing a node by one of the same name does not change where a name is found.
proof fn lemma_find_named_update<F>(s: Seq<PathsView<F>>, i: int, x: PathsView<F>, name: Seq<char>)
    requires
        0 <= i < s.len(),
        x.name == s[i].name,
    ensures
        find_named(s.update(i, x), name) == find_named(s, name),
{
    let t = s.update(i, x);
    lemma_find_named_in_range(s, name);
    lemma_find_named_in_range(t, name);
    if let Some(j) = find_named(s, name) {
        assert(is_first_named(t, name, j));
        lemma_find_named_is(t, name, j);
    } else if let Some(j) = find_named(t, name) {
        assert(s[j].name == name);
    }
}

/// Appending a node finds it under its name when no earlier node has that name.
proof fn lemma_find_named_push<F>(s: Seq<PathsView<F>>, x: PathsView<F>, name: Seq<char>)
    ensures
        find_named(s.push(x), name) == match find_named(s, name) {
            Some(j) => Some(j),
            None => if x.name == name {
                Some(s.len() as int)
            } else {
                None
            },
        },
{
    let t = s.push(x);
    lemma_find_named_in_range(s, name);
    lemma_find_named_in_range(t, name);
    if let Some(j) = find_named(s, name) {
        assert(is_first_named(t, name, j));
        lemma_find_named_is(t, name, j);
    } else if x.name == name {
        assert forall|j: int| 0 <= j < s.len() implies t[j].name != name by {
            if s[j].name == name {
                lemma_find_named_some(s, name, j);
            }
        }
        assert(is_first_named(t, name, s.len() as int));
        lemma_find_named_is(t, name, s.len() as int);
    } else if let Some(j) = find_named(t, name) {
        assert(j < s.len());
        assert(s[j].name == name);
        lemma_find_named_some(s, name, j);
    }
}

/// A node without wildcard and variables routes nothing that it has no child for.
proof fn lemma_route_unknown<F>(t: PathsView<F>, path: Seq<Seq<char>>, args: Map<Seq<char>, Seq<char>>)
    requires
        t.is_static(),
        path.len() > 0,
        find_named(t.sub, path[0]) is None,
    ensures
        t.route(path, args) == (None::<F>, args),
{
    assert(route_vars(t.variables, 0, path, args) == (None::<F>, args));
}

/// Storing a plain route keeps a tree free of wildcards and variables.
pub proof fn lemma_added_static<F>(t: PathsView<F>, route: Seq<Seq<char>>, f: F)
    requires
        t.is_static(),
        plain_route(route),
    ensures
        t.added(route, f).is_static(),
    decreases route.len(),
{
    if route.len() > 0 {
        let rest = route.drop_first();
        lemma_plain_drop_first(route);
        let n = t.added(route, f);
        lemma_all_static(t.sub);
        lemma_find_named_in_range(t.sub, route[0]);
        match find_named(t.sub, route[0]) {
            Some(i) => {
                assert(0 <= i < t.sub.len());
                assert(t.sub[i].is_static());
                lemma_added_static(t.sub[i], rest, f);
                assert forall|j: int| 0 <= j < n.sub.len() implies #[trigger] n.sub[j].is_static() by {
                    if j != i {
                        assert(n.sub[j] == t.sub[j]);
                    }
                }
                lemma_all_static(n.sub);
            },
            None => {
                let leaf = PathsView::<F>::leaf(route[0]);
                lemma_added_static(leaf, rest, f);
                assert forall|j: int| 0 <= j < n.sub.len() implies #[trigger] n.sub[j].is_static() by {
                    if j < t.sub.len() {
                        assert(n.sub[j] == t.sub[j]);
                    }
                }
                lemma_all_static(n.sub);
            },
        }
    }
}

/// Routing a plain route just stored finds the function stored, and collects no
/// arguments, in any tree whose fixed children hold no wildcard node (variable
/// nodes may stand anywhere); the function is reached through fixed children.
pub proof fn lemma_route_added<F>(
    t: PathsView<F>,
    route: Seq<Seq<char>>,
    f: F,
    args: Map<Seq<char>, Seq<char>>,
)
    requires
        t.fixed_no_wildcard(),
        plain_route(route),
    ensures
        t.added(route, f).route(route, args) == (Some(f), args),
        t.added(route, f).fixed_lookup(route) == Some(f),
        t.added(route, f).fixed_no_wildcard(),
{
    lemma_fixed_lookup_added(t, route, f);
    lemma_plain_no_wildcard_segment(route);
    lemma_added_fixed_no_wildcard(t, route, f);
    lemma_route_fixed(t.added(route, f), route, args);
}

/// Storing a plain route in a tree free of wildcards and variables changes what
/// no other route gives.
pub proof fn lemma_route_other<F>(
    t: PathsView<F>,
    route: Seq<Seq<char>>,
    f: F,
    other: Seq<Seq<char>>,
    args: Map<Seq<char>, Seq<char>>,
)
    requires
        t.is_static(),
        plain_route(route),
        other != route,
    ensures
        t.added(route, f).route(other, args) == t.route(other, args),
    decreases route.len(),
{
    let n = t.added(route, f);
    if route.len() == 0 {
        if other.len() == 0 {
            assert(other =~= route);
        }
    } else if other.len() == 0 {
    } else {
        let rest = route.drop_first();
        let other_rest = other.drop_first();
        lemma_plain_drop_first(route);
        lemma_all_static(t.sub);
        lemma_find_named_in_range(t.sub, route[0]);
        lemma_find_named_in_range(t.sub, other[0]);
        match find_named(t.sub, route[0]) {
            Some(i) => {
                let child = t.sub[i].added(rest, f);
                lemma_find_named_update(t.sub, i, child, other[0]);
                if other[0] == route[0] {
                    if other_rest == rest {
                        assert(other =~= seq![other[0]] + other_rest);
                        assert(route =~= seq![route[0]] + rest);
                    }
                    lemma_route_other(t.sub[i], rest, f, other_rest, args);
                } else {
                    match find_named(t.sub, other[0]) {
                        Some(j) => {
                            assert(j != i);
                        },
                        None => {},
                    }
                }
            },
            None => {
                let leaf = PathsView::<F>::leaf(route[0]);
                let child = leaf.added(rest, f);
                lemma_find_named_push(t.sub, child, other[0]);
                if other[0] == route[0] {
                    if other_rest == rest {
                        assert(other =~= seq![other[0]] + other_rest);
                        assert(route =~= seq![route[0]] + rest);
                    }
                    lemma_route_other(leaf, rest, f, other_rest, args);
                    lemma_route_unknown(t, other, args);
                    if other_rest.len() > 0 {
                        lemma_route_unknown(leaf, other_rest, args);
                    }
                }
            },
        }
    }
}

proof fn lemma_plain_drop_first(route: Seq<Seq<char>>)
    requires
        plain_route(route),
        route.len() > 0,
    ensures
        plain_route(route.drop_first()),
        route[0].len() > 0 && route[0][0] != '*' && route[0][0] != ':',
{
    let rest = route.drop_first();
    assert forall|i: int| 0 <= i < rest.len() implies #[trigger] rest[i].len() > 0 && rest[i][0]
        != '*' && rest[i][0] != ':' by {
        assert(rest[i] == route[i + 1]);
    }
}

/// A route that ends in a wildcard segment: routing the fixed segments before it
/// followed by any further segments finds the function stored, with the further
/// segments, each preceded by a slash, as the argument `*`, in any tree whose fixed
/// children hold no wildcard node.
pub proof fn lemma_route_wildcard<F>(
    t: PathsView<F>,
    prefix: Seq<Seq<char>>,
    wildcard: Seq<char>,
    f: F,
    rest: Seq<Seq<char>>,
    args: Map<Seq<char>, Seq<char>>,
)
    requires
        t.fixed_no_wildcard(),
        plain_route(prefix),
        wildcard.len() > 0,
        wildcard[0] == '*',
        rest.len() > 0,
    ensures
        t.added(prefix.push(wildcard), f).route(prefix + rest, args) == (
            Some(f),
            args.insert("*"@, super::paths::joined(rest)),
        ),
    decreases prefix.len(),
{
    let route = prefix.push(wildcard);
    if prefix.len() == 0 {
        assert(route =~= seq![wildcard]);
        assert(prefix + rest =~= rest);
    } else {
        lemma_plain_drop_first(prefix);
        let p = prefix.drop_first();
        assert(route.drop_first() =~= p.push(wildcard));
        assert((prefix + rest).drop_first() =~= p + rest);
        assert(route[0] == prefix[0]);
        assert((prefix + rest)[0] == prefix[0]);
        lemma_all_fixed_no_wildcard(t.sub);
        lemma_find_named_in_range(t.sub, prefix[0]);
        match find_named(t.sub, prefix[0]) {
            Some(i) => {
                let child = t.sub[i].added(p.push(wildcard), f);
                lemma_find_named_update(t.sub, i, child, prefix[0]);
                lemma_route_wildcard(t.sub[i], p, wildcard, f, rest, args);
            },
            None => {
                let leaf = PathsView::<F>::leaf(prefix[0]);
                let child = leaf.added(p.push(wildcard), f);
                lemma_find_named_push(t.sub, child, prefix[0]);
                lemma_route_wildcard(leaf, p, wildcard, f, rest, args);
            },
        }
    }
}

/// Following `prefix` from `t` ends at no node, or at a node without a child named
/// `name`.
pub open spec fn no_child_at<F>(t: PathsView<F>, prefix: Seq<Seq<char>>, name: Seq<char>) -> bool
    decreases prefix.len(),
{
    if prefix.len() == 0 {
        find_named(t.sub, name) is None
    } else {
        match find_named(t.sub, prefix[0]) {
            Some(i) => if 0 <= i < t.sub.len() {
                no_child_at(t.sub[i], prefix.drop_first(), name)
            } else {
                true
            },
            None => true,
        }
    }
}

/// Following `prefix` from `t` ends at no node, or at a node without variable
/// children.
pub open spec fn no_variables_at<F>(t: PathsView<F>, prefix: Seq<Seq<char>>) -> bool
    decreases prefix.len(),
{
    if prefix.len() == 0 {
        t.variables.len() == 0
    } else {
        match find_named(t.sub, prefix[0]) {
            Some(i) => if 0 <= i < t.sub.len() {
                no_variables_at(t.sub[i], prefix.drop_first())
            } else {
                true
            },
            None => true,
        }
    }
}

/// Following `prefix` from `t` ends at no node, or at a node whose variable children
/// are none, or a single one named `variable` that reaches no wildcard node through
/// fixed children.
pub open spec fn sole_variable_at<F>(t: PathsView<F>, prefix: Seq<Seq<char>>, variable: Seq<char>) -> bool
    decreases prefix.len(),
{
    if prefix.len() == 0 {
        t.variables.len() == 0 || (t.variables.len() == 1 && t.variables[0].name == variable
            && t.variables[0].fixed_no_wildcard())
    } else {
        match find_named(t.sub, prefix[0]) {
            Some(i) => if 0 <= i < t.sub.len() {
                sole_variable_at(t.sub[i], prefix.drop_first(), variable)
            } else {
                true
            },
            None => true,
        }
    }
}

proof fn lemma_no_variables_sole<F>(t: PathsView<F>, prefix: Seq<Seq<char>>, variable: Seq<char>)
    requires
        no_variables_at(t, prefix),
    ensures
        sole_variable_at(t, prefix, variable),
    decreases prefix.len(),
{
    if prefix.len() > 0 {
        if let Some(i) = find_named(t.sub, prefix[0]) {
            if 0 <= i < t.sub.len() {
                lemma_no_variables_sole(t.sub[i], prefix.drop_first(), variable);
            }
        }
    }
}

/// A route with a variable segment stored again: routing it with any value in place
/// of the variable finds the function just stored and binds the variable's name to
/// the value, also when a variable node of that name already stands there with
/// routes of its own, in any tree whose fixed children hold no wildcard node, as
/// long as no fixed node of that value and no variable node of another name stands
/// where the variable does.
pub proof fn lemma_route_variable_stored<F>(
    t: PathsView<F>,
    prefix: Seq<Seq<char>>,
    variable: Seq<char>,
    suffix: Seq<Seq<char>>,
    f: F,
    value: Seq<char>,
    args: Map<Seq<char>, Seq<char>>,
)
    requires
        t.fixed_no_wildcard(),
        plain_route(prefix),
        plain_route(suffix),
        variable.len() > 0,
        variable[0] == ':',
        no_child_at(t, prefix, value),
        sole_variable_at(t, prefix, variable),
    ensures
        t.added(prefix + seq![variable] + suffix, f).route(prefix + seq![value] + suffix, args) == (
            Some(f),
            args.insert(variable, value),
        ),
    decreases prefix.len(),
{
    let route = prefix + seq![variable] + suffix;
    let path = prefix + seq![value] + suffix;
    lemma_all_fixed_no_wildcard(t.sub);
    if prefix.len() == 0 {
        assert(route =~= seq![variable] + suffix);
        assert(path =~= seq![value] + suffix);
        assert(route[0] == variable);
        assert(route.drop_first() =~= suffix);
        assert(path.drop_first() =~= suffix);
        let n = t.added(route, f);
        let node = if t.variables.len() == 0 {
            PathsView::<F>::leaf(variable)
        } else {
            t.variables[0]
        };
        assert(node.fixed_no_wildcard()) by {
            if t.variables.len() == 0 {
                assert(node.sub =~= Seq::<PathsView<F>>::empty());
            }
        }
        if t.variables.len() == 0 {
            lemma_find_named_push(t.variables, node.added(suffix, f), variable);
            assert(find_named(t.variables, variable) is None);
            assert(added_to(t.variables, route, f) =~= seq![node.added(suffix, f)]);
        } else {
            assert(is_first_named(t.variables, variable, 0));
            lemma_find_named_is(t.variables, variable, 0);
            assert(added_to(t.variables, route, f) =~= seq![node.added(suffix, f)]);
        }
        lemma_route_added(node, suffix, f, args);
        let vars = n.variables;
        assert(vars =~= seq![node.added(suffix, f)]);
        assert(node.added(suffix, f).name == variable);
        assert(n.sub == t.sub);
        assert(!n.wildcard);
        assert(find_named(n.sub, path[0]) is None);
        assert(vars[0].route(path.drop_first(), args) == (Some(f), args));
        assert(route_vars(vars, 0, path, args) == (Some(f), args.insert(variable, value)));
        assert(n.route(path, args) == route_vars(vars, 0, path, args));
    } else {
        lemma_plain_drop_first(prefix);
        let p = prefix.drop_first();
        assert(route.drop_first() =~= p + seq![variable] + suffix);
        assert(path.drop_first() =~= p + seq![value] + suffix);
        assert(route[0] == prefix[0]);
        assert(path[0] == prefix[0]);
        lemma_find_named_in_range(t.sub, prefix[0]);
        match find_named(t.sub, prefix[0]) {
            Some(i) => {
                let child = t.sub[i].added(p + seq![variable] + suffix, f);
                lemma_find_named_update(t.sub, i, child, prefix[0]);
                lemma_route_variable_stored(t.sub[i], p, variable, suffix, f, value, args);
            },
            None => {
                let leaf = PathsView::<F>::leaf(prefix[0]);
                let child = leaf.added(p + seq![variable] + suffix, f);
                lemma_find_named_push(t.sub, child, prefix[0]);
                assert(leaf.sub =~= Seq::<PathsView<F>>::empty());
                assert(leaf.variables =~= Seq::<PathsView<F>>::empty());
                assert(no_child_at(leaf, p, value));
                assert(sole_variable_at(leaf, p, variable));
                lemma_route_variable_stored(leaf, p, variable, suffix, f, value, args);
            },
        }
    }
}

/// A route with a variable segment: routing it with any value in place of the
/// variable finds the function stored and binds the variable's name to the value,
/// in any tree whose fixed children hold no wildcard node, as long as no fixed node
/// of that value and no other variable node stands where the variable does.
pub proof fn lemma_route_variable<F>(
    t: PathsView<F>,
    prefix: Seq<Seq<char>>,
    variable: Seq<char>,
    suffix: Seq<Seq<char>>,
    f: F,
    value: Seq<char>,
    args: Map<Seq<char>, Seq<char>>,
)
    requires
        t.fixed_no_wildcard(),
        plain_route(prefix),
        plain_route(suffix),
        variable.len() > 0,
        variable[0] == ':',
        no_child_at(t, prefix, value),
        no_variables_at(t, prefix),
    ensures
        t.added(prefix + seq![variable] + suffix, f).route(prefix + seq![value] + suffix, args) == (
            Some(f),
            args.insert(variable, value),
        ),
{
    lemma_no_variables_sole(t, prefix, variable);
    lemma_route_variable_stored(t, prefix, variable, suffix, f, value, args);
}

/// A path without `?` and `#` has no query and no fragment.
pub proof fn lemma_plain_uri(uri: Seq<char>)
    requires
        !uri.contains('?'),
        !uri.contains('#'),
    ensures
        uri_parts(uri) == (
            route_segments(uri),
            Seq::<(Seq<char>, Seq<char>)>::empty(),
            Seq::<char>::empty(),
        ),
{
    assert(last_index(uri, '#') is None);
    assert(last_index(uri, '?') is None);
    assert(split_at_last(uri, '#') == (uri, Seq::<char>::empty()));
    assert(split_at_last(uri, '?') == (uri, Seq::<char>::empty()));
    let e = Seq::<char>::empty();
    assert(super::paths::split_on(e, '&') == seq![e]);
    assert(seq![e].drop_last() =~= Seq::<Seq<char>>::empty());
    assert(super::paths::args_pairs(seq![e].drop_last()) =~= Seq::<(Seq<char>, Seq<char>)>::empty());
    assert(super::paths::pairs_upto(e, 0) =~= Seq::<(Seq<char>, Seq<char>)>::empty());
    assert(super::paths::query_pairs(e) =~= Seq::<(Seq<char>, Seq<char>)>::empty());
}

/// After a route without query and fragment, its segments all fixed, is stored in a
/// tree whose fixed children hold no wildcard node, routing that same path finds
/// the function stored; the only argument it adds is the empty fragment.
pub proof fn lemma_router_finds_added<F>(
    t: PathsView<F>,
    uri: Seq<char>,
    f: F,
    args: Map<Seq<char>, Seq<char>>,
)
    requires
        t.fixed_no_wildcard(),
        plain_route(route_segments(uri)),
        !uri.contains('?'),
        !uri.contains('#'),
    ensures
        route_request(t.added(route_segments(uri), f), uri, args) == (
            Some(f),
            args.insert("#"@, Seq::<char>::empty()),
        ),
{
    lemma_plain_uri(uri);
    assert(super::paths::args_with_query(args, Seq::empty()) == args);
    lemma_route_added(t, route_segments(uri), f, args.insert("#"@, Seq::<char>::empty()));
}

/// Storing a route in a tree free of wildcards and variables (its segments all
/// fixed) does not change what routing gives for any URI with other route segments.
pub proof fn lemma_router_other<F>(
    t: PathsView<F>,
    uri: Seq<char>,
    f: F,
    other: Seq<char>,
    args: Map<Seq<char>, Seq<char>>,
)
    requires
        t.is_static(),
        plain_route(route_segments(uri)),
        uri_parts(other).0 != route_segments(uri),
    ensures
        route_request(t.added(route_segments(uri), f), other, args) == route_request(
            t,
            other,
            args,
        ),
{
    let (segments, query, fragment) = uri_parts(other);
    let a = super::paths::args_with_query(args, query).insert("#"@, fragment);
    lemma_route_other(t, route_segments(uri), f, segments, a);
}

impl<F> PathsView<F> {
    /// No wildcard node is reached through fixed children: neither this node nor,
    /// recursively, any of its fixed children is a wildcard. Variable children are
    /// not constrained.
    pub open spec fn fixed_no_wildcard(self) -> bool
        decreases self,
    {
        !self.wildcard && all_fixed_no_wildcard(self.sub)
    }

    /// The function stored for `route` along fixed children only, if any.
    pub open spec fn fixed_lookup(self, route: Seq<Seq<char>>) -> Option<F>
        decreases route.len(),
    {
        if route.len() == 0 {
            self.function
        } else {
            match find_named(self.sub, route[0]) {
                Some(i) => if 0 <= i < self.sub.len() {
                    self.sub[i].fixed_lookup(route.drop_first())
                } else {
                    None
                },
                None => None,
            }
        }
    }
}

/// No tree in `s` reaches a wildcard node through fixed children.
pub open spec fn all_fixed_no_wildcard<F>(s: Seq<PathsView<F>>) -> bool
    decreases s,
{
    if s.len() == 0 {
        true
    } else {
        s.last().fixed_no_wildcard() && all_fixed_no_wildcard(s.drop_last())
    }
}

/// No segment of `route` starts with `*`.
pub open spec fn no_wildcard_segment(route: Seq<Seq<char>>) -> bool {
    forall|i: int| 0 <= i < route.len() && #[trigger] route[i].len() > 0 ==> route[i][0] != '*'
}

proof fn lemma_all_fixed_no_wildcard<F>(s: Seq<PathsView<F>>)
    ensures
        all_fixed_no_wildcard(s) <==> forall|i: int|
            0 <= i < s.len() ==> #[trigger] s[i].fixed_no_wildcard(),
    decreases s.len(),
{
    if s.len() > 0 {
        lemma_all_fixed_no_wildcard(s.drop_last());
        if forall|i: int| 0 <= i < s.len() ==> #[trigger] s[i].fixed_no_wildcard() {
            assert forall|i: int| 0 <= i < s.drop_last().len() implies #[trigger] s.drop_last()[i].fixed_no_wildcard() by {
                assert(s.drop_last()[i] == s[i]);
            }
            assert(s[s.len() - 1].fixed_no_wildcard());
        }
        if all_fixed_no_wildcard(s) {
            assert forall|i: int| 0 <= i < s.len() implies #[trigger] s[i].fixed_no_wildcard() by {
                if i < s.len() - 1 {
                    assert(s.drop_last()[i] == s[i]);
                    assert(s.drop_last()[i].fixed_no_wildcard());
                }
            }
        }
    }
}

proof fn lemma_plain_no_wildcard_segment(route: Seq<Seq<char>>)
    requires
        plain_route(route),
    ensures
        no_wildcard_segment(route),
{
    assert forall|i: int| 0 <= i < route.len() && #[trigger] route[i].len() > 0 implies route[i][0]
        != '*' by {
        assert(route[i].len() > 0 && route[i][0] != '*' && route[i][0] != ':');
    }
}

proof fn lemma_no_wildcard_segment_drop_first(route: Seq<Seq<char>>)
    requires
        no_wildcard_segment(route),
        route.len() > 0,
    ensures
        no_wildcard_segment(route.drop_first()),
{
    let rest = route.drop_first();
    assert forall|i: int| 0 <= i < rest.len() && #[trigger] rest[i].len() > 0 implies rest[i][0]
        != '*' by {
        assert(rest[i] == route[i + 1]);
    }
}

/// Following fixed children only, a plain route just stored leads to the function
/// stored.
proof fn lemma_fixed_lookup_added<F>(t: PathsView<F>, route: Seq<Seq<char>>, f: F)
    requires
        plain_route(route),
    ensures
        t.added(route, f).fixed_lookup(route) == Some(f),
    decreases route.len(),
{
    if route.len() > 0 {
        let rest = route.drop_first();
        lemma_plain_drop_first(route);
        lemma_find_named_in_range(t.sub, route[0]);
        match find_named(t.sub, route[0]) {
            Some(i) => {
                let child = t.sub[i].added(rest, f);
                lemma_find_named_update(t.sub, i, child, route[0]);
                lemma_fixed_lookup_added(t.sub[i], rest, f);
            },
            None => {
                let leaf = PathsView::<F>::leaf(route[0]);
                let child = leaf.added(rest, f);
                lemma_find_named_push(t.sub, child, route[0]);
                lemma_fixed_lookup_added(leaf, rest, f);
            },
        }
    }
}

/// Storing a route without wildcard segments changes, following fixed children
/// only, what no other route leads to.
proof fn lemma_fixed_lookup_other<F>(
    t: PathsView<F>,
    route: Seq<Seq<char>>,
    f: F,
    other: Seq<Seq<char>>,
)
    requires
        no_wildcard_segment(route),
        other != route,
    ensures
        t.added(route, f).fixed_lookup(other) == t.fixed_lookup(other),
    decreases route.len(),
{
    if route.len() == 0 {
        if other.len() == 0 {
            assert(other =~= route);
        }
    } else if other.len() == 0 {
    } else if route[0].len() == 0 {
    } else if route[0][0] == ':' {
    } else {
        assert(route[0][0] != '*');
        let rest = route.drop_first();
        let other_rest = other.drop_first();
        lemma_no_wildcard_segment_drop_first(route);
        lemma_find_named_in_range(t.sub, route[0]);
        lemma_find_named_in_range(t.sub, other[0]);
        if other[0] == route[0] && other_rest == rest {
            assert(other =~= seq![other[0]] + other_rest);
            assert(route =~= seq![route[0]] + rest);
        }
        match find_named(t.sub, route[0]) {
            Some(i) => {
                let child = t.sub[i].added(rest, f);
                lemma_find_named_update(t.sub, i, child, other[0]);
                if other[0] == route[0] {
                    lemma_fixed_lookup_other(t.sub[i], rest, f, other_rest);
                } else {
                    match find_named(t.sub, other[0]) {
                        Some(j) => {
                            assert(j != i);
                        },
                        None => {},
                    }
                }
            },
            None => {
                let leaf = PathsView::<F>::leaf(route[0]);
                let child = leaf.added(rest, f);
                lemma_find_named_push(t.sub, child, other[0]);
                if other[0] == route[0] {
                    lemma_fixed_lookup_other(leaf, rest, f, other_rest);
                    if other_rest.len() > 0 {
                        assert(find_named(leaf.sub, other_rest[0]) is None);
                    }
                }
            },
        }
    }
}

/// Storing a route without wildcard segments keeps a tree's fixed children free of
/// wildcard nodes.
pub proof fn lemma_added_fixed_no_wildcard<F>(t: PathsView<F>, route: Seq<Seq<char>>, f: F)
    requires
        t.fixed_no_wildcard(),
        no_wildcard_segment(route),
    ensures
        t.added(route, f).fixed_no_wildcard(),
    decreases route.len(),
{
    if route.len() > 0 && route[0].len() > 0 && route[0][0] != ':' {
        assert(route[0][0] != '*');
        let rest = route.drop_first();
        lemma_no_wildcard_segment_drop_first(route);
        let n = t.added(route, f);
        lemma_all_fixed_no_wildcard(t.sub);
        lemma_find_named_in_range(t.sub, route[0]);
        match find_named(t.sub, route[0]) {
            Some(i) => {
                lemma_added_fixed_no_wildcard(t.sub[i], rest, f);
                assert forall|j: int| 0 <= j < n.sub.len() implies #[trigger] n.sub[j].fixed_no_wildcard() by {
                    if j != i {
                        assert(n.sub[j] == t.sub[j]);
                    }
                }
                lemma_all_fixed_no_wildcard(n.sub);
            },
            None => {
                let leaf = PathsView::<F>::leaf(route[0]);
                assert(leaf.sub =~= Seq::<PathsView<F>>::empty());
                lemma_added_fixed_no_wildcard(leaf, rest, f);
                assert forall|j: int| 0 <= j < n.sub.len() implies #[trigger] n.sub[j].fixed_no_wildcard() by {
                    if j < t.sub.len() {
                        assert(n.sub[j] == t.sub[j]);
                    }
                }
                lemma_all_fixed_no_wildcard(n.sub);
            },
        }
    }
}

/// Where following fixed children leads to a function, and no wildcard node stands
/// on the way, routing finds that function and collects no arguments.
proof fn lemma_route_fixed<F>(t: PathsView<F>, route: Seq<Seq<char>>, args: Map<Seq<char>, Seq<char>>)
    requires
        t.fixed_no_wildcard(),
        t.fixed_lookup(route) is Some,
    ensures
        t.route(route, args) == (t.fixed_lookup(route), args),
    decreases route.len(),
{
    if route.len() > 0 {
        lemma_all_fixed_no_wildcard(t.sub);
        lemma_find_named_in_range(t.sub, route[0]);
        let i = find_named(t.sub, route[0])->0;
        lemma_route_fixed(t.sub[i], route.drop_first(), args);
    }
}

/// A route stored with `f`, reached through fixed children, keeps being routed to `f`
/// when any other route without wildcard segments is stored, in a tree whose fixed
/// children hold no wildcard node; routing it collects no arguments. The new tree
/// still reaches `f` through fixed children for that route, and still holds no
/// wildcard node among its fixed children, so the law applies again to each further
/// route stored.
pub proof fn lemma_route_keeps_stored<F>(
    t: PathsView<F>,
    stored: Seq<Seq<char>>,
    f: F,
    route: Seq<Seq<char>>,
    g: F,
    args: Map<Seq<char>, Seq<char>>,
)
    requires
        t.fixed_no_wildcard(),
        t.fixed_lookup(stored) == Some(f),
        no_wildcard_segment(route),
        route != stored,
    ensures
        t.added(route, g).route(stored, args) == (Some(f), args),
        t.added(route, g).fixed_lookup(stored) == Some(f),
        t.added(route, g).fixed_no_wildcard(),
{
    lemma_fixed_lookup_other(t, route, g, stored);
    lemma_added_fixed_no_wildcard(t, route, g);
    lemma_route_fixed(t.added(route, g), stored, args);
}

/// After a route, its segments all fixed, is stored with `f` in a tree whose fixed
/// children hold no wildcard node, storing any other route without wildcard
/// segments leaves every URI with those route segments routed to `f`.
pub proof fn lemma_router_keeps_stored<F>(
    t: PathsView<F>,
    stored: Seq<Seq<char>>,
    f: F,
    route: Seq<Seq<char>>,
    g: F,
    uri: Seq<char>,
    args: Map<Seq<char>, Seq<char>>,
)
    requires
        t.fixed_no_wildcard(),
        plain_route(stored),
        no_wildcard_segment(route),
        route != stored,
        uri_parts(uri).0 == stored,
    ensures
        route_request(t.added(stored, f).added(route, g), uri, args).0 == Some(f),
{
    let (segments, query, fragment) = uri_parts(uri);
    let a = super::paths::args_with_query(args, query).insert("#"@, fragment);
    lemma_fixed_lookup_added(t, stored, f);
    lemma_plain_no_wildcard_segment(stored);
    lemma_added_fixed_no_wildcard(t, stored, f);
    lemma_route_keeps_stored(t.added(stored, f), stored, f, route, g, a);
}

/// A name that a fixed node can have: not empty, and starting with neither `:` nor `*`.
pub open spec fn fixed_name(n: Seq<char>) -> bool {
    n.len() > 0 && n[0] != ':' && n[0] != '*'
}

/// A name that a variable node can have: starting with `:`.
pub open spec fn variable_name(n: Seq<char>) -> bool {
    n.len() > 0 && n[0] == ':'
}

/// No two nodes of `s` have the same name.
pub open spec fn names_distinct<F>(s: Seq<PathsView<F>>) -> bool {
    forall|i: int, j: int| 0 <= i < s.len() && 0 <= j < s.len() && i != j ==> s[i].name != s[j].name
}

impl<F> PathsView<F> {
    /// The shape that storing routes gives a tree: a wildcard node holds a function;
    /// fixed children have fixed names and variable children variable names, no name
    /// twice among either; and so on in every child.
    pub open spec fn wf(self) -> bool
        decreases self,
    {
        &&& self.wildcard ==> self.function is Some
        &&& forall|i: int| 0 <= i < self.sub.len() ==> fixed_name(#[trigger] self.sub[i].name)
        &&& forall|i: int|
            0 <= i < self.variables.len() ==> variable_name(#[trigger] self.variables[i].name)
        &&& names_distinct(self.sub)
        &&& names_distinct(self.variables)
        &&& all_wf(self.sub)
        &&& all_wf(self.variables)
    }
}

/// Every tree in `s` has the shape that storing routes gives.
pub open spec fn all_wf<F>(s: Seq<PathsView<F>>) -> bool
    decreases s,
{
    if s.len() == 0 {
        true
    } else {
        s.last().wf() && all_wf(s.drop_last())
    }
}

proof fn lemma_all_wf<F>(s: Seq<PathsView<F>>)
    ensures
        all_wf(s) <==> forall|i: int| 0 <= i < s.len() ==> #[trigger] s[i].wf(),
    decreases s.len(),
{
    if s.len() > 0 {
        lemma_all_wf(s.drop_last());
        if forall|i: int| 0 <= i < s.len() ==> #[trigger] s[i].wf() {
            assert forall|i: int| 0 <= i < s.drop_last().len() implies #[trigger] s.drop_last()[i].wf() by {
                assert(s.drop_last()[i] == s[i]);
            }
            assert(s[s.len() - 1].wf());
        }
        if all_wf(s) {
            assert forall|i: int| 0 <= i < s.len() implies #[trigger] s[i].wf() by {
                if i < s.len() - 1 {
                    assert(s.drop_last()[i] == s[i]);
                    assert(s.drop_last()[i].wf());
                }
            }
        }
    }
}

/// The empty tree has the shape that storing routes gives.
pub proof fn lemma_empty_wf<F>()
    ensures
        PathsView::<F>::empty().wf(),
{
}

/// `added_to` keeps the names, their kind and their distinctness, and the shape of
/// every node, when the new name is of the kind `ok` and the node it leads to keeps
/// its shape.
proof fn lemma_added_to_wf<F>(
    store: Seq<PathsView<F>>,
    route: Seq<Seq<char>>,
    f: F,
    ok: spec_fn(Seq<char>) -> bool,
)
    requires
        route.len() > 0,
        ok(route[0]),
        forall|i: int| 0 <= i < store.len() ==> #[trigger] ok(store[i].name),
        names_distinct(store),
        all_wf(store),
        forall|i: int|
            0 <= i < store.len() ==> #[trigger] store[i].added(route.drop_first(), f).wf(),
        PathsView::<F>::leaf(route[0]).added(route.drop_first(), f).wf(),
    ensures
        forall|i: int|
            0 <= i < added_to(store, route, f).len() ==> #[trigger] ok(
                added_to(store, route, f)[i].name,
            ),
        names_distinct(added_to(store, route, f)),
        all_wf(added_to(store, route, f)),
{
    let rest = route.drop_first();
    let n = added_to(store, route, f);
    lemma_all_wf(store);
    lemma_find_named_in_range(store, route[0]);
    match find_named(store, route[0]) {
        Some(i) => {
            assert(n == store.update(i, store[i].added(rest, f)));
            assert forall|j: int| 0 <= j < n.len() implies #[trigger] n[j].wf() by {
                if j != i {
                    assert(n[j] == store[j]);
                }
            }
            assert forall|j: int| 0 <= j < n.len() implies #[trigger] ok(n[j].name) by {
                if j != i {
                    assert(n[j] == store[j]);
                } else {
                    assert(n[j].name == store[i].name);
                }
            }
            assert forall|a: int, b: int|
                0 <= a < n.len() && 0 <= b < n.len() && a != b implies n[a].name != n[b].name by {
                assert(n[a].name == store[a].name);
                assert(n[b].name == store[b].name);
            }
            lemma_all_wf(n);
        },
        None => {
            let leaf = PathsView::<F>::leaf(route[0]);
            assert(n == store.push(leaf.added(rest, f)));
            assert(leaf.added(rest, f).name == route[0]);
            assert forall|j: int| 0 <= j < store.len() implies store[j].name != route[0] by {
                if store[j].name == route[0] {
                    lemma_find_named_some(store, route[0], j);
                }
            }
            assert forall|j: int| 0 <= j < n.len() implies #[trigger] n[j].wf() by {
                if j < store.len() {
                    assert(n[j] == store[j]);
                }
            }
            assert forall|j: int| 0 <= j < n.len() implies #[trigger] ok(n[j].name) by {
                if j < store.len() {
                    assert(n[j] == store[j]);
                }
            }
            assert forall|a: int, b: int|
                0 <= a < n.len() && 0 <= b < n.len() && a != b implies n[a].name != n[b].name by {
                if a < store.len() && b < store.len() {
                    assert(n[a] == store[a]);
                    assert(n[b] == store[b]);
                } else if a < store.len() {
                    assert(n[a] == store[a]);
                } else {
                    assert(n[b] == store[b]);
                }
            }
            lemma_all_wf(n);
        },
    }
}

/// Storing any route keeps the shape that storing routes gives.
pub proof fn lemma_added_wf<F>(t: PathsView<F>, route: Seq<Seq<char>>, f: F)
    requires
        t.wf(),
    ensures
        t.added(route, f).wf(),
    decreases route.len(),
{
    if route.len() > 0 && route[0].len() > 0 && route[0][0] != '*' {
        let rest = route.drop_first();
        let leaf = PathsView::<F>::leaf(route[0]);
        assert(leaf.sub =~= Seq::<PathsView<F>>::empty());
        assert(leaf.variables =~= Seq::<PathsView<F>>::empty());
        assert(leaf.wf());
        lemma_added_wf(leaf, rest, f);
        if route[0][0] == ':' {
            lemma_all_wf(t.variables);
            assert forall|i: int| 0 <= i < t.variables.len() implies #[trigger] t.variables[i].added(
                rest,
                f,
            ).wf() by {
                lemma_added_wf(t.variables[i], rest, f);
            }
            lemma_added_to_wf(t.variables, route, f, |n: Seq<char>| variable_name(n));
        } else {
            lemma_all_wf(t.sub);
            assert forall|i: int| 0 <= i < t.sub.len() implies #[trigger] t.sub[i].added(
                rest,
                f,
            ).wf() by {
                lemma_added_wf(t.sub[i], rest, f);
            }
            lemma_added_to_wf(t.sub, route, f, |n: Seq<char>| fixed_name(n));
        }
    }
}


/// `b` holds every key of `a`, and each key of `b` that is neither the name of a
/// variable node nor `*` is a key of `a` with the same value.
pub open spec fn keeps_args(a: Map<Seq<char>, Seq<char>>, b: Map<Seq<char>, Seq<char>>) -> bool {
    &&& a.dom().subset_of(b.dom())
    &&& forall|k: Seq<char>|
        #[trigger] b.dom().contains(k) && !variable_name(k) && k != "*"@ ==> a.dom().contains(k)
            && b[k] == a[k]
}

/// In a tree of the shape that storing routes gives, routing keeps the arguments
/// passed in and adds only variable names and `*`; a routing that finds no function
/// gives the arguments back unchanged.
pub proof fn lemma_route_keeps_args<F>(
    t: PathsView<F>,
    path: Seq<Seq<char>>,
    args: Map<Seq<char>, Seq<char>>,
)
    requires
        t.wf(),
    ensures
        keeps_args(args, t.route(path, args).1),
        t.route(path, args).0 is None ==> t.route(path, args).1 == args,
    decreases path.len(), t.variables.len() + 1,
{
    if path.len() > 0 && !t.wildcard {
        lemma_find_named_in_range(t.sub, path[0]);
        match find_named(t.sub, path[0]) {
            Some(i) => {
                lemma_all_wf(t.sub);
                lemma_route_keeps_args(t.sub[i], path.drop_first(), args);
            },
            None => {
                lemma_all_wf(t.variables);
                lemma_route_vars_keeps_args(t.variables, 0, path, args);
            },
        }
    }
}

proof fn lemma_route_vars_keeps_args<F>(
    vars: Seq<PathsView<F>>,
    k: int,
    path: Seq<Seq<char>>,
    args: Map<Seq<char>, Seq<char>>,
)
    requires
        forall|i: int| 0 <= i < vars.len() ==> #[trigger] vars[i].wf(),
        forall|i: int| 0 <= i < vars.len() ==> variable_name(#[trigger] vars[i].name),
    ensures
        keeps_args(args, route_vars(vars, k, path, args).1),
        route_vars(vars, k, path, args).0 is None ==> route_vars(vars, k, path, args).1 == args,
    decreases path.len(), vars.len() - k,
{
    if 0 <= k < vars.len() && path.len() > 0 {
        lemma_route_keeps_args(vars[k], path.drop_first(), args);
        let (r, a) = vars[k].route(path.drop_first(), args);
        if r is None {
            lemma_route_vars_keeps_args(vars, k + 1, path, a);
        } else {
            assert(variable_name(vars[k].name));
        }
    }
}

/// The function that routing finds does not depend on the arguments passed in.
pub proof fn lemma_route_function_of_path<F>(
    t: PathsView<F>,
    path: Seq<Seq<char>>,
    a1: Map<Seq<char>, Seq<char>>,
    a2: Map<Seq<char>, Seq<char>>,
)
    ensures
        t.route(path, a1).0 == t.route(path, a2).0,
    decreases path.len(), t.variables.len() + 1,
{
    if path.len() > 0 && !t.wildcard {
        match find_named(t.sub, path[0]) {
            Some(i) => {
                if 0 <= i < t.sub.len() {
                    lemma_route_function_of_path(t.sub[i], path.drop_first(), a1, a2);
                }
            },
            None => {
                lemma_route_vars_function_of_path(t.variables, 0, path, a1, a2);
            },
        }
    }
}

proof fn lemma_route_vars_function_of_path<F>(
    vars: Seq<PathsView<F>>,
    k: int,
    path: Seq<Seq<char>>,
    a1: Map<Seq<char>, Seq<char>>,
    a2: Map<Seq<char>, Seq<char>>,
)
    ensures
        route_vars(vars, k, path, a1).0 == route_vars(vars, k, path, a2).0,
    decreases path.len(), vars.len() - k,
{
    if 0 <= k < vars.len() && path.len() > 0 {
        lemma_route_function_of_path(vars[k], path.drop_first(), a1, a2);
        let (r1, b1) = vars[k].route(path.drop_first(), a1);
        let (r2, b2) = vars[k].route(path.drop_first(), a2);
        if r1 is None {
            lemma_route_vars_function_of_path(vars, k + 1, path, b1, b2);
        }
    }
}

/// Adding query pairs keeps every key, and the value of every key that does not
/// start with `?`.
proof fn lemma_args_with_query_keeps(
    args: Map<Seq<char>, Seq<char>>,
    query: Seq<(Seq<char>, Seq<char>)>,
)
    ensures
        args.dom().subset_of(args_with_query(args, query).dom()),
        forall|k: Seq<char>|
            #[trigger] args_with_query(args, query).dom().contains(k) && !(k.len() > 0 && k[0]
                == '?') ==> args.dom().contains(k) && args_with_query(args, query)[k] == args[k],
    decreases query.len(),
{
    reveal_strlit("?");
    if query.len() > 0 {
        lemma_args_with_query_keeps(args, query.drop_last());
        let name = "?"@ + query.last().0;
        assert(name[0] == '?');
    }
}

/// The function that routing a URI finds does not depend on the arguments passed in.
pub proof fn lemma_router_function_of_uri<F>(
    t: PathsView<F>,
    uri: Seq<char>,
    a1: Map<Seq<char>, Seq<char>>,
    a2: Map<Seq<char>, Seq<char>>,
)
    ensures
        route_request(t, uri, a1).0 == route_request(t, uri, a2).0,
{
    let (segments, query, fragment) = uri_parts(uri);
    lemma_route_function_of_path(
        t,
        segments,
        args_with_query(a1, query).insert("#"@, fragment),
        args_with_query(a2, query).insert("#"@, fragment),
    );
}

/// Routing a URI in a tree of the shape that storing routes gives: the arguments
/// come back with the fragment under `#`, every key passed in kept, and the value of
/// each key passed in that is not `#` or `*` and starts with neither `?` nor `:`
/// unchanged; what else they hold besides the query pairs (under `?` and their name)
/// are variable names and `*`. A URI that is routed to no function gives back just
/// the arguments passed in with the query pairs and the fragment added.
pub proof fn lemma_router_args<F>(t: PathsView<F>, uri: Seq<char>, args: Map<Seq<char>, Seq<char>>)
    requires
        t.wf(),
    ensures
        route_request(t, uri, args).1.dom().contains("#"@),
        route_request(t, uri, args).1["#"@] == uri_parts(uri).2,
        keeps_args(
            args_with_query(args, uri_parts(uri).1).insert("#"@, uri_parts(uri).2),
            route_request(t, uri, args).1,
        ),
        args.dom().subset_of(route_request(t, uri, args).1.dom()),
        forall|k: Seq<char>|
            #[trigger] args.dom().contains(k) && k != "#"@ && k != "*"@ && !variable_name(k) && !(
            k.len() > 0 && k[0] == '?') ==> route_request(t, uri, args).1[k] == args[k],
        route_request(t, uri, args).0 is None ==> route_request(t, uri, args).1
            == args_with_query(args, uri_parts(uri).1).insert("#"@, uri_parts(uri).2),
{
    reveal_strlit("#");
    reveal_strlit("*");
    let (segments, query, fragment) = uri_parts(uri);
    let q = args_with_query(args, query);
    let a = q.insert("#"@, fragment);
    lemma_args_with_query_keeps(args, query);
    lemma_route_keeps_args(t, segments, a);
    let r = t.route(segments, a).1;
    assert(!variable_name("#"@));
    assert("#"@ != "*"@);
    assert(a.dom().contains("#"@));
    assert(r.dom().contains("#"@));
    assert(r["#"@] == a["#"@]);
    assert forall|k: Seq<char>|
        #[trigger] args.dom().contains(k) && k != "#"@ && k != "*"@ && !variable_name(k) && !(
        k.len() > 0 && k[0] == '?') implies r[k] == args[k] by {
        assert(q.dom().contains(k));
        assert(a.dom().contains(k));
        assert(r.dom().contains(k));
    }
}

/// Variable nodes that fail on `path` one after another leave it to the next: in
/// trees of the shape that storing routes gives, a failed try changes no argument.
proof fn lemma_route_vars_skip<F>(
    vars: Seq<PathsView<F>>,
    j: int,
    k: int,
    path: Seq<Seq<char>>,
    args: Map<Seq<char>, Seq<char>>,
)
    requires
        0 <= j <= k <= vars.len(),
        path.len() > 0,
        forall|i: int| 0 <= i < vars.len() ==> #[trigger] vars[i].wf(),
        forall|i: int| j <= i < k ==> (#[trigger] vars[i].route(path.drop_first(), args)).0 is None,
    ensures
        route_vars(vars, j, path, args) == route_vars(vars, k, path, args),
    decreases k - j,
{
    if j < k {
        lemma_route_keeps_args(vars[j], path.drop_first(), args);
        lemma_route_vars_skip(vars, j + 1, k, path, args);
    }
}

/// Where no fixed child is named like the next segment, the variable children are
/// tried in order: the first whose subtree routes the remaining segments gives its
/// function, with its name bound to the segment (in a tree of the shape that storing
/// routes gives, without a wildcard at this node).
pub proof fn lemma_route_first_variable<F>(
    t: PathsView<F>,
    path: Seq<Seq<char>>,
    args: Map<Seq<char>, Seq<char>>,
    k: int,
)
    requires
        t.wf(),
        !t.wildcard,
        path.len() > 0,
        find_named(t.sub, path[0]) is None,
        0 <= k < t.variables.len(),
        t.variables[k].route(path.drop_first(), args).0 is Some,
        forall|j: int|
            0 <= j < k ==> (#[trigger] t.variables[j].route(path.drop_first(), args)).0 is None,
    ensures
        t.route(path, args) == (
            t.variables[k].route(path.drop_first(), args).0,
            t.variables[k].route(path.drop_first(), args).1.insert(t.variables[k].name, path[0]),
        ),
{
    lemma_all_wf(t.variables);
    lemma_route_vars_skip(t.variables, 0, k, path, args);
}

/// Where no fixed child is named like the next segment and no variable child's
/// subtree routes the remaining segments, routing finds nothing and changes no
/// argument (in a tree of the shape that storing routes gives, without a wildcard at
/// this node).
pub proof fn lemma_route_no_variable<F>(
    t: PathsView<F>,
    path: Seq<Seq<char>>,
    args: Map<Seq<char>, Seq<char>>,
)
    requires
        t.wf(),
        !t.wildcard,
        path.len() > 0,
        find_named(t.sub, path[0]) is None,
        forall|j: int|
            0 <= j < t.variables.len() ==> (#[trigger] t.variables[j].route(
                path.drop_first(),
                args,
            )).0 is None,
    ensures
        t.route(path, args) == (None::<F>, args),
{
    lemma_all_wf(t.variables);
    lemma_route_vars_skip(t.variables, 0, t.variables.len() as int, path, args);
}

/// Appending characters other than `c` extends the last field.
proof fn lemma_split_on_append(x: Seq<char>, b: Seq<char>, c: char)
    requires
        !b.contains(c),
    ensures
        split_on(x + b, c) == split_on(x, c).update(
            split_on(x, c).len() - 1,
            split_on(x, c).last() + b,
        ),
    decreases b.len(),
{
    lemma_split_on_len(x, c);
    if b.len() == 0 {
        assert(x + b =~= x);
        assert(split_on(x, c).last() + b =~= split_on(x, c).last());
        assert(split_on(x, c).update(split_on(x, c).len() - 1, split_on(x, c).last())
            =~= split_on(x, c));
    } else {
        let bd = b.drop_last();
        assert(!bd.contains(c)) by {
            if bd.contains(c) {
                let i = choose|i: int| 0 <= i < bd.len() && bd[i] == c;
                assert(b[i] == c);
            }
        }
        assert(b[b.len() - 1] != c);
        lemma_split_on_append(x, bd, c);
        assert((x + b).drop_last() =~= x + bd);
        assert((x + b).last() == b.last());
        let f = split_on(x, c);
        let g = split_on(x + bd, c);
        assert(g == f.update(f.len() - 1, f.last() + bd));
        assert(g.len() == f.len());
        assert(g.last() == f.last() + bd);
        assert((x + b).len() > 0);
        assert((x + b).last() != c);
        assert(split_on(x + b, c) == g.update(g.len() - 1, g.last().push(b.last())));
        assert((f.last() + bd).push(b.last()) =~= f.last() + b);
        assert(split_on(x + b, c) =~= f.update(f.len() - 1, f.last() + b));
    }
}

/// Joined segments split at their slashes into an empty field and the segments.
proof fn lemma_split_joined(segs: Seq<Seq<char>>)
    requires
        forall|i: int| 0 <= i < segs.len() ==> !(#[trigger] segs[i]).contains('/'),
    ensures
        split_on(joined(segs), '/') == seq![Seq::<char>::empty()] + segs,
    decreases segs.len(),
{
    reveal_strlit("/");
    if segs.len() == 0 {
        assert(split_on(Seq::<char>::empty(), '/') == seq![Seq::<char>::empty()]);
        assert(seq![Seq::<char>::empty()] + segs =~= seq![Seq::<char>::empty()]);
    } else {
        let init = segs.drop_last();
        assert forall|i: int| 0 <= i < init.len() implies !(#[trigger] init[i]).contains('/') by {
            assert(init[i] == segs[i]);
        }
        lemma_split_joined(init);
        let x = joined(init).push('/');
        assert(joined(segs) =~= x + segs.last());
        assert(x.drop_last() =~= joined(init));
        assert(split_on(x, '/') == split_on(joined(init), '/').push(Seq::<char>::empty()));
        assert(!segs.last().contains('/'));
        lemma_split_on_append(x, segs.last(), '/');
        assert(Seq::<char>::empty() + segs.last() =~= segs.last());
        assert(split_on(joined(segs), '/') =~= seq![Seq::<char>::empty()] + segs);
    }
}

/// Segments joined with a slash before each, with or without a slash at the end,
/// split back into the same segments: `/a/b` and `/a/b/` both give `a` and `b`.
pub proof fn lemma_route_segments_joined(segs: Seq<Seq<char>>)
    requires
        forall|i: int|
            0 <= i < segs.len() ==> (#[trigger] segs[i]).len() > 0 && !segs[i].contains('/'),
    ensures
        route_segments(joined(segs)) == segs,
        route_segments(joined(segs).push('/')) == segs,
{
    let e = Seq::<char>::empty();
    lemma_split_joined(segs);
    let j = joined(segs);
    lemma_split_on_len(j, '/');
    assert((seq![e] + segs).drop_first() =~= segs);
    if segs.len() > 0 {
        assert(segs.last().len() > 0);
    }
    let k = j.push('/');
    assert(k.drop_last() =~= j);
    assert(split_on(k, '/') == (seq![e] + segs).push(e));
    assert(k.contains('/')) by {
        assert(k[k.len() - 1] == '/');
    }
    assert((seq![e] + segs).push(e).drop_first() =~= segs.push(e));
    assert(segs.push(e).drop_last() =~= segs);
    if segs.len() == 0 {
        assert(!j.contains('/'));
        assert(seq![e] + segs =~= seq![e]);
        assert(seq![e].drop_last() =~= segs);
    }
}

/// The text of a query argument: its name, `=` and its value.
pub open spec fn pair_text(p: (Seq<char>, Seq<char>)) -> Seq<char> {
    p.0 + "="@ + p.1
}

/// The text of a query: its arguments, separated by `&`.
pub open spec fn query_text(ps: Seq<(Seq<char>, Seq<char>)>) -> Seq<char>
    decreases ps.len(),
{
    if ps.len() == 0 {
        Seq::empty()
    } else if ps.len() == 1 {
        pair_text(ps[0])
    } else {
        query_text(ps.drop_last()) + "&"@ + pair_text(ps.last())
    }
}

/// Text that holds neither `=` nor `&`.
pub open spec fn plain_query_part(s: Seq<char>) -> bool {
    !s.contains('=') && !s.contains('&')
}

proof fn lemma_pairs_upto_one(n: Seq<char>, v: Seq<char>, k: int)
    requires
        plain_query_part(n),
        plain_query_part(v),
        0 <= k <= n.len() + 1 + v.len(),
    ensures
        pairs_upto(n + "="@ + v, k) == if k <= n.len() {
            Seq::<(Seq<char>, Seq<char>)>::empty()
        } else {
            seq![(n, v)]
        },
    decreases k,
{
    reveal_strlit("=");
    let arg = n + "="@ + v;
    if k > 0 {
        lemma_pairs_upto_one(n, v, k - 1);
        if k - 1 < n.len() {
            assert(arg[k - 1] == n[k - 1]);
        } else if k - 1 == n.len() {
            assert(arg[k - 1] == '=');
            assert(arg.subrange(0, k - 1) =~= n);
            assert(arg.subrange(k, arg.len() as int) =~= v);
            assert(Seq::<(Seq<char>, Seq<char>)>::empty().push((n, v)) =~= seq![(n, v)]);
        } else {
            assert(arg[k - 1] == v[k - 2 - n.len()]);
        }
    }
}

proof fn lemma_split_query_text(ps: Seq<(Seq<char>, Seq<char>)>)
    requires
        ps.len() > 0,
        forall|i: int|
            0 <= i < ps.len() ==> plain_query_part((#[trigger] ps[i]).0) && plain_query_part(
                ps[i].1,
            ),
    ensures
        split_on(query_text(ps), '&') == ps.map_values(|p: (Seq<char>, Seq<char>)| pair_text(p)),
    decreases ps.len(),
{
    reveal_strlit("=");
    reveal_strlit("&");
    let e = Seq::<char>::empty();
    let last = pair_text(ps.last());
    assert(!last.contains('&')) by {
        if last.contains('&') {
            let i = choose|i: int| 0 <= i < last.len() && last[i] == '&';
            let n = ps.last().0;
            if i < n.len() {
                assert(n[i] == '&');
            } else if i > n.len() {
                assert(ps.last().1[i - n.len() - 1] == '&');
            }
        }
    }
    if ps.len() == 1 {
        lemma_split_on_append(e, last, '&');
        assert(e + last =~= last);
        assert(split_on(e, '&') == seq![e]);
        assert(e + last =~= last);
        assert(ps.map_values(|p: (Seq<char>, Seq<char>)| pair_text(p)) =~= seq![last]);
    } else {
        let init = ps.drop_last();
        assert forall|i: int| 0 <= i < init.len() implies plain_query_part(
            (#[trigger] init[i]).0,
        ) && plain_query_part(init[i].1) by {
            assert(init[i] == ps[i]);
        }
        lemma_split_query_text(init);
        let x = query_text(init).push('&');
        assert(query_text(ps) =~= x + last);
        assert(x.drop_last() =~= query_text(init));
        lemma_split_on_append(x, last, '&');
        assert(e + last =~= last);
        assert(split_on(query_text(ps), '&') =~= ps.map_values(
            |p: (Seq<char>, Seq<char>)| pair_text(p),
        ));
    }
}

proof fn lemma_args_pairs_texts(ps: Seq<(Seq<char>, Seq<char>)>)
    requires
        forall|i: int|
            0 <= i < ps.len() ==> plain_query_part((#[trigger] ps[i]).0) && plain_query_part(
                ps[i].1,
            ),
    ensures
        args_pairs(ps.map_values(|p: (Seq<char>, Seq<char>)| pair_text(p))) == ps,
    decreases ps.len(),
{
    reveal_strlit("=");
    let texts = ps.map_values(|p: (Seq<char>, Seq<char>)| pair_text(p));
    if ps.len() == 0 {
        assert(texts.len() == 0);
    } else {
        let init = ps.drop_last();
        assert forall|i: int| 0 <= i < init.len() implies plain_query_part(
            (#[trigger] init[i]).0,
        ) && plain_query_part(init[i].1) by {
            assert(init[i] == ps[i]);
        }
        lemma_args_pairs_texts(init);
        assert(texts.drop_last() =~= init.map_values(|p: (Seq<char>, Seq<char>)| pair_text(p)));
        let (n, v) = ps.last();
        assert(texts.last() == n + "="@ + v);
        lemma_pairs_upto_one(n, v, (n + "="@ + v).len() as int);
        assert(init + seq![(n, v)] =~= ps);
    }
}

/// A query written as `name=value` arguments separated by `&`, no name or value
/// holding `=` or `&`, gives back exactly those pairs, in order.
pub proof fn lemma_query_pairs_text(ps: Seq<(Seq<char>, Seq<char>)>)
    requires
        forall|i: int|
            0 <= i < ps.len() ==> plain_query_part((#[trigger] ps[i]).0) && plain_query_part(
                ps[i].1,
            ),
    ensures
        query_pairs(query_text(ps)) == ps,
{
    if ps.len() == 0 {
        let e = Seq::<char>::empty();
        assert(split_on(e, '&') == seq![e]);
        assert(seq![e].drop_last() =~= Seq::<Seq<char>>::empty());
        assert(args_pairs(seq![e].drop_last()) =~= Seq::<(Seq<char>, Seq<char>)>::empty());
        assert(pairs_upto(e, 0) =~= Seq::<(Seq<char>, Seq<char>)>::empty());
        assert(seq![e].last() == e);
        assert(args_pairs(seq![e]) =~= ps);
    } else {
        lemma_split_query_text(ps);
        lemma_args_pairs_texts(ps);
    }
}

/// A URI made of a route, `?`, a query, `#` and a fragment splits into the route's
/// segments, the query's pairs and the fragment, as long as the `?` and the `#` put
/// between them are the last of their kind (the route and the query hold no `?`,
/// the fragment no `#`).
pub proof fn lemma_uri_parts(route: Seq<char>, query: Seq<char>, fragment: Seq<char>)
    requires
        !route.contains('?'),
        !query.contains('?'),
        !fragment.contains('#'),
    ensures
        uri_parts(route + "?"@ + query + "#"@ + fragment) == (
            route_segments(route),
            query_pairs(query),
            fragment,
        ),
{
    reveal_strlit("?");
    reveal_strlit("#");
    let rest = route + "?"@ + query;
    let uri = rest + "#"@ + fragment;
    let p = rest.len() as int;
    assert(uri[p] == '#');
    assert forall|j: int| p < j < uri.len() implies uri[j] != '#' by {
        assert(uri[j] == fragment[j - p - 1]);
    }
    lemma_last_index_is(uri, '#', p);
    assert(uri.subrange(0, p) =~= rest);
    assert(uri.subrange(p + 1, uri.len() as int) =~= fragment);
    let q = route.len() as int;
    assert(rest[q] == '?');
    assert forall|j: int| q < j < rest.len() implies rest[j] != '?' by {
        assert(rest[j] == query[j - q - 1]);
    }
    lemma_last_index_is(rest, '?', q);
    assert(rest.subrange(0, q) =~= route);
    assert(rest.subrange(q + 1, rest.len() as int) =~= query);
}

/// Query pairs become arguments under `?` and their name; where a name comes more
/// than once, the last value wins.
pub proof fn lemma_args_with_query_values(
    args: Map<Seq<char>, Seq<char>>,
    ps: Seq<(Seq<char>, Seq<char>)>,
)
    ensures
        forall|i: int|
            0 <= i < ps.len() && (forall|j: int| i < j < ps.len() ==> ps[j].0 != ps[i].0)
                ==> args_with_query(args, ps).dom().contains("?"@ + (#[trigger] ps[i]).0)
                && args_with_query(args, ps)["?"@ + ps[i].0] == ps[i].1,
    decreases ps.len(),
{
    reveal_strlit("?");
    if ps.len() > 0 {
        let init = ps.drop_last();
        lemma_args_with_query_values(args, init);
        assert forall|i: int|
            0 <= i < ps.len() && (forall|j: int| i < j < ps.len() ==> ps[j].0 != ps[i].0)
            implies args_with_query(args, ps).dom().contains("?"@ + (#[trigger] ps[i]).0)
            && args_with_query(args, ps)["?"@ + ps[i].0] == ps[i].1 by {
            if i < ps.len() - 1 {
                let a = "?"@ + ps[i].0;
                let b = "?"@ + ps.last().0;
                assert(ps.last().0 != ps[i].0);
                if a == b {
                    assert(a.subrange(1, a.len() as int) =~= ps[i].0);
                    assert(b.subrange(1, b.len() as int) =~= ps.last().0);
                }
                assert(init[i] == ps[i]);
                assert forall|j: int| i < j < init.len() implies init[j].0 != init[i].0 by {
                    assert(init[j] == ps[j]);
                }
            }
        }
    }
}

} // verus!
