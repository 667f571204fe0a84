use super::laws::{
    lemma_added_fixed_no_wildcard, lemma_added_wf, lemma_empty_wf, lemma_router_args,
    lemma_router_function_of_uri, no_wildcard_segment, variable_name,
};
use super::{views_of, Args, Paths, PathsView};
use crate::text::{chars_of, find_last, last_index, str_eq};
use vstd::prelude::*;

verus! {

/// The characters of each string slice.
pub open spec fn str_views(v: Seq<&str>) -> Seq<Seq<char>> {
    v.map_values(|x: &str| x@)
}

/// The characters of each pair of string slices.
pub open spec fn pair_views(v: Seq<(&str, &str)>) -> Seq<(Seq<char>, Seq<char>)> {
    v.map_values(|p: (&str, &str)| (p.0@, p.1@))
}

/// The fields of `s` separated by `c`: one more field than `s` has occurrences of `c`.
pub open spec fn split_on(s: Seq<char>, c: char) -> Seq<Seq<char>>
    decreases s.len(),
{
    if s.len() == 0 {
        seq![Seq::empty()]
    } else {
        let f = split_on(s.drop_last(), c);
        if s.last() == c {
            f.push(Seq::empty())
        } else {
            f.update(f.len() - 1, f.last().push(s.last()))
        }
    }
}

/// `s` splits into at least one field, and into more than one exactly when it holds `c`.
pub(crate) proof fn lemma_split_on_len(s: Seq<char>, c: char)
    ensures
        split_on(s, c).len() >= 1,
        split_on(s, c).len() > 1 <==> s.contains(c),
    decreases s.len(),
{
    if s.len() > 0 {
        lemma_split_on_len(s.drop_last(), c);
        if s.drop_last().contains(c) {
            let i = choose|i: int| 0 <= i < s.drop_last().len() && s.drop_last()[i] == c;
            assert(s[i] == c);
        }
        if s.contains(c) && s.last() != c {
            let i = choose|i: int| 0 <= i < s.len() && s[i] == c;
            assert(s.drop_last()[i] == c);
        }
    }
}

/// The segments of a route: the parts between slashes. What stands before the first
/// slash is dropped (when there is a slash), and so is an empty last part.
pub open spec fn route_segments(s: Seq<char>) -> Seq<Seq<char>> {
    let parts = split_on(s, '/');
    let p = if s.contains('/') {
        parts.drop_first()
    } else {
        parts
    };
    if p.len() > 0 && p.last().len() == 0 {
        p.drop_last()
    } else {
        p
    }
}

/// `s` split at its last `c`: what stands before it and what stands after it; when
/// there is no `c`, all of `s` and nothing.
pub open spec fn split_at_last(s: Seq<char>, c: char) -> (Seq<char>, Seq<char>) {
    match last_index(s, c) {
        Some(i) => (s.subrange(0, i), s.subrange(i + 1, s.len() as int)),
        None => (s, Seq::empty()),
    }
}

/// The pairs that the first `k` characters of `arg` give: for each `=` among them,
/// the text before it and the text after it.
pub open spec fn pairs_upto(arg: Seq<char>, k: int) -> Seq<(Seq<char>, Seq<char>)>
    decreases k,
{
    if k <= 0 {
        Seq::empty()
    } else if arg[k - 1] == '=' {
        pairs_upto(arg, k - 1).push(
            (arg.subrange(0, k - 1), arg.subrange(k, arg.len() as int)),
        )
    } else {
        pairs_upto(arg, k - 1)
    }
}

/// The name-value pairs of the query arguments `args`, in order.
pub open spec fn args_pairs(args: Seq<Seq<char>>) -> Seq<(Seq<char>, Seq<char>)>
    decreases args.len(),
{
    if args.len() == 0 {
        Seq::empty()
    } else {
        args_pairs(args.drop_last()) + pairs_upto(args.last(), args.last().len() as int)
    }
}

/// The name-value pairs of a query string: its `&`-separated arguments, each split
/// at every `=` it holds.
pub open spec fn query_pairs(q: Seq<char>) -> Seq<(Seq<char>, Seq<char>)> {
    args_pairs(split_on(q, '&'))
}

/// The parts of a URI: the route segments, the query pairs and the fragment.
pub open spec fn uri_parts(uri: Seq<char>) -> (
    Seq<Seq<char>>,
    Seq<(Seq<char>, Seq<char>)>,
    Seq<char>,
) {
    let (rest, fragment) = split_at_last(uri, '#');
    let (route, query) = split_at_last(rest, '?');
    (route_segments(route), query_pairs(query), fragment)
}

/// `args` with each query pair added under its name prefixed by `?`.
pub open spec fn args_with_query(
    args: Map<Seq<char>, Seq<char>>,
    query: Seq<(Seq<char>, Seq<char>)>,
) -> Map<Seq<char>, Seq<char>>
    decreases query.len(),
{
    if query.len() == 0 {
        args
    } else {
        args_with_query(args, query.drop_last()).insert(
            "?"@ + query.last().0,
            query.last().1,
        )
    }
}

/// The fields of `s` separated by `c`, as slices of `s`.
fn split_fields(s: &str, c: char) -> (r: Vec<&str>)
    ensures
        str_views(r@) == split_on(s@, c),
{
    let chars = chars_of(s);
    let n = chars.len();
    let mut out: Vec<&str> = Vec::new();
    let mut start: usize = 0;
    let mut i: usize = 0;
    assert(s@.take(0) =~= Seq::<char>::empty());
    assert(str_views(out@).push(s@.subrange(0, 0)) =~= split_on(s@.take(0), c));
    while i < n
        invariant
            chars@ == s@,
            n == s@.len(),
            start <= i <= n,
            str_views(out@).push(s@.subrange(start as int, i as int)) == split_on(
                s@.take(i as int),
                c,
            ),
        decreases n - i,
    {
        let ghost before = out@;
        let ghost prev = split_on(s@.take(i as int), c);
        assert(s@.take(i as int + 1).drop_last() =~= s@.take(i as int));
        assert(s@.take(i as int + 1).last() == s@[i as int]);
        if chars[i] == c {
            let field = s.substring_char(start, i);
            out.push(field);
            assert(str_views(out@) =~= str_views(before).push(field@));
            assert(str_views(out@) == prev);
            start = i + 1;
            assert(s@.subrange(start as int, i as int + 1) =~= Seq::<char>::empty());
            assert(str_views(out@).push(s@.subrange(start as int, i as int + 1)) =~= prev.push(
                Seq::empty(),
            ));
        } else {
            assert(s@.subrange(start as int, i as int + 1) =~= s@.subrange(
                start as int,
                i as int,
            ).push(s@[i as int]));
            assert(str_views(out@).push(s@.subrange(start as int, i as int + 1)) =~= prev.update(
                prev.len() - 1,
                prev.last().push(s@[i as int]),
            ));
        }
        i = i + 1;
    }
    let last = s.substring_char(start, n);
    let ghost before = out@;
    out.push(last);
    assert(str_views(out@) =~= str_views(before).push(last@));
    assert(s@.take(n as int) =~= s@);
    out
}

proof fn lemma_pairs_upto_step(arg: Seq<char>, k: int)
    requires
        0 <= k < arg.len(),
    ensures
        pairs_upto(arg, k + 1) == if arg[k] == '=' {
            pairs_upto(arg, k).push((arg.subrange(0, k), arg.subrange(k + 1, arg.len() as int)))
        } else {
            pairs_upto(arg, k)
        },
{
}

impl<F> Paths<F> {
    /// Splits a route at its slashes into segments. What stands before the first
    /// slash is dropped, and so is an empty last segment.
    pub fn route_vec(route: &str) -> (r: Vec<&str>)
        ensures
            str_views(r@) == route_segments(route@),
    {
        let mut list = split_fields(route, '/');
        proof {
            lemma_split_on_len(route@, '/');
        }
        if list.len() > 1 {
            let ghost before = list@;
            list.remove(0);
            assert(str_views(list@) =~= str_views(before).drop_first());
        }
        let n = list.len();
        if n > 0 && list[n - 1].is_empty() {
            let ghost before = list@;
            list.pop();
            assert(str_views(list@) =~= str_views(before).drop_last());
        }
        list
    }

    /// Splits off the query: the route before the last `?` and the query after it.
    pub fn route_query_str(route: &str) -> (r: (&str, &str))
        ensures
            (r.0@, r.1@) == split_at_last(route@, '?'),
    {
        Self::split_last(route, '?')
    }

    /// Splits off the fragment: the route before the last `#` and the fragment after it.
    pub fn route_fragment_str(route: &str) -> (r: (&str, &str))
        ensures
            (r.0@, r.1@) == split_at_last(route@, '#'),
    {
        Self::split_last(route, '#')
    }

    fn split_last(route: &str, c: char) -> (r: (&str, &str))
        ensures
            (r.0@, r.1@) == split_at_last(route@, c),
    {
        let chars = chars_of(route);
        match find_last(&chars, c) {
            Some(index) => {
                let n = chars.len();
                assert(index < n);
                (route.substring_char(0, index), route.substring_char(index + 1, n))
            },
            None => {
                proof {
                    reveal_strlit("");
                }
                (route, "")
            },
        }
    }

    /// The name-value pairs of a query string: its `&`-separated arguments, each
    /// split at every `=` it holds.
    pub fn route_query_vec(query: &str) -> (r: Vec<(&str, &str)>)
        ensures
            pair_views(r@) == query_pairs(query@),
    {
        let args = split_fields(query, '&');
        let ghost fields = str_views(args@);
        let mut tuple_vec: Vec<(&str, &str)> = Vec::new();
        let mut a: usize = 0;
        assert(fields.take(0) =~= Seq::<Seq<char>>::empty());
        while a < args.len()
            invariant
                fields == str_views(args@),
                fields == split_on(query@, '&'),
                a <= args@.len(),
                pair_views(tuple_vec@) == args_pairs(fields.take(a as int)),
            decreases args@.len() - a,
        {
            let arg = args[a];
            let chars = chars_of(arg);
            let n = chars.len();
            let ghost done = pair_views(tuple_vec@);
            let mut index: usize = 0;
            assert(done + pairs_upto(arg@, 0) =~= done);
            while index < n
                invariant
                    chars@ == arg@,
                    n == arg@.len(),
                    index <= n,
                    pair_views(tuple_vec@) == done + pairs_upto(arg@, index as int),
                decreases n - index,
            {
                proof {
                    lemma_pairs_upto_step(arg@, index as int);
                }
                if chars[index] == '=' {
                    let name = arg.substring_char(0, index);
                    let value = arg.substring_char(index + 1, n);
                    let ghost before = tuple_vec@;
                    tuple_vec.push((name, value));
                    assert(pair_views(tuple_vec@) =~= pair_views(before).push((name@, value@)));
                }
                index = index + 1;
            }
            proof {
                assert(fields.take(a as int + 1).drop_last() =~= fields.take(a as int));
                assert(fields.take(a as int + 1).last() == arg@);
            }
            a = a + 1;
        }
        assert(fields.take(args@.len() as int) =~= fields);
        tuple_vec
    }

    /// Splits a URI into its route segments, its query pairs and its fragment.
    pub fn split_uri(uri: &str) -> (r: (Vec<&str>, Vec<(&str, &str)>, &str))
        ensures
            (str_views(r.0@), pair_views(r.1@), r.2@) == uri_parts(uri@),
    {
        let (route, fragment) = Self::route_fragment_str(uri);
        let (route, query) = Self::route_query_str(route);
        let query = Self::route_query_vec(query);
        let route = Self::route_vec(route);
        (route, query, fragment)
    }

    /// Adds each query pair to `args`, under its name prefixed by `?`.
    pub fn add_query_to_args(query: Vec<(&str, &str)>, args: &mut Args)
        ensures
            final(args).view() == args_with_query(old(args).view(), pair_views(query@)),
    {
        let ghost start = args.view();
        let ghost q = pair_views(query@);
        let mut i: usize = 0;
        assert(q.take(0) =~= Seq::<(Seq<char>, Seq<char>)>::empty());
        while i < query.len()
            invariant
                q == pair_views(query@),
                i <= query@.len(),
                args.view() == args_with_query(start, q.take(i as int)),
            decreases query@.len() - i,
        {
            let (name, value) = query[i];
            let mut new_name = "?".to_owned();
            new_name.append(name);
            let value = value.to_owned();
            args.insert(new_name, value);
            assert(q.take(i as int + 1).drop_last() =~= q.take(i as int));
            i = i + 1;
        }
        assert(q.take(query@.len() as int) =~= q);
    }
}

/// `i` is the position of the first node named `name` in `s`.
pub open spec fn is_first_named<F>(s: Seq<PathsView<F>>, name: Seq<char>, i: int) -> bool {
    &&& 0 <= i < s.len()
    &&& s[i].name == name
    &&& forall|j: int| 0 <= j < i ==> s[j].name != name
}

/// The position of the first node named `name` in `s`, if any.
pub open spec fn find_named<F>(s: Seq<PathsView<F>>, name: Seq<char>) -> Option<int> {
    if exists|i: int| 0 <= i < s.len() && s[i].name == name {
        Some(choose|i: int| is_first_named(s, name, i))
    } else {
        None
    }
}

/// A first node of that name is where the name is found.
pub(crate) proof fn lemma_find_named_is<F>(s: Seq<PathsView<F>>, name: Seq<char>, i: int)
    requires
        is_first_named(s, name, i),
    ensures
        find_named(s, name) == Some(i),
{
    let j = choose|j: int| is_first_named(s, name, j);
    assert(is_first_named(s, name, j));
    if j < i {
        assert(s[j].name != name);
    }
    if i < j {
        assert(s[i].name != name);
    }
}

impl<F> PathsView<F> {
    /// A node named `name` without function or children.
    pub open spec fn leaf(name: Seq<char>) -> PathsView<F> {
        PathsView {
            name: name,
            function: None,
            sub: Seq::empty(),
            variables: Seq::empty(),
            wildcard: false,
        }
    }

    /// The tree with `f` stored for the route segments `route`. A segment that starts
    /// with `*` makes the node a wildcard that holds `f` (later segments do not
    /// count); a segment that starts with `:` is a variable; an empty segment ends
    /// the route and stores nothing.
    pub open spec fn added(self, route: Seq<Seq<char>>, f: F) -> PathsView<F>
        decreases route.len(), 1int,
    {
        if route.len() == 0 {
            PathsView { function: Some(f), ..self }
        } else if route[0].len() == 0 {
            self
        } else if route[0][0] == '*' {
            PathsView { function: Some(f), wildcard: true, ..self }
        } else if route[0][0] == ':' {
            PathsView { variables: added_to(self.variables, route, f), ..self }
        } else {
            PathsView { sub: added_to(self.sub, route, f), ..self }
        }
    }

    /// Follows the route segments `path` from this node, collecting arguments into
    /// `args`. A wildcard node takes all remaining segments, joined with slashes, as
    /// the argument `*`. Otherwise the first child named like the next segment is
    /// followed; without one, the variable children are tried in order, and the first
    /// that routes the remaining segments binds its name to the segment. Returns the
    /// function found, if any, and the arguments (a failed try leaves the arguments it
    /// collected in place).
    pub open spec fn route(self, path: Seq<Seq<char>>, args: Map<Seq<char>, Seq<char>>) -> (
        Option<F>,
        Map<Seq<char>, Seq<char>>,
    )
        decreases path.len(), self.variables.len() + 1,
    {
        if path.len() == 0 {
            (self.function, args)
        } else if self.wildcard {
            (self.function, args.insert("*"@, joined(path)))
        } else {
            match find_named(self.sub, path[0]) {
                Some(i) => if 0 <= i < self.sub.len() {
                    self.sub[i].route(path.drop_first(), args)
                } else {
                    (None, args)
                },
                None => route_vars(self.variables, 0, path, args),
            }
        }
    }
}

/// `store` with `f` stored for `route`, whose first segment names the node in
/// `store` to descend into; a node of that name is added at the end when there is
/// none.
pub open spec fn added_to<F>(store: Seq<PathsView<F>>, route: Seq<Seq<char>>, f: F) -> Seq<
    PathsView<F>,
>
    decreases route.len(), 0int,
{
    if route.len() == 0 {
        store
    } else {
        match find_named(store, route[0]) {
            Some(i) => if 0 <= i < store.len() {
                store.update(i, store[i].added(route.drop_first(), f))
            } else {
                store
            },
            None => store.push(PathsView::leaf(route[0]).added(route.drop_first(), f)),
        }
    }
}

/// Tries the variable nodes `vars` from position `k` on for `path`.
pub open spec fn route_vars<F>(
    vars: Seq<PathsView<F>>,
    k: int,
    path: Seq<Seq<char>>,
    args: Map<Seq<char>, Seq<char>>,
) -> (Option<F>, Map<Seq<char>, Seq<char>>)
    decreases path.len(), vars.len() - k,
{
    if k < 0 || k >= vars.len() || path.len() == 0 {
        (None, args)
    } else {
        let (r, a) = vars[k].route(path.drop_first(), args);
        match r {
            Some(f) => (Some(f), a.insert(vars[k].name, path[0])),
            None => route_vars(vars, k + 1, path, a),
        }
    }
}

/// The segments `path`, each preceded by a slash.
pub open spec fn joined(path: Seq<Seq<char>>) -> Seq<char>
    decreases path.len(),
{
    if path.len() == 0 {
        Seq::empty()
    } else {
        joined(path.drop_last()) + "/"@ + path.last()
    }
}

/// Routing a URI: the query pairs are added to `args` (under `?` and their name), the
/// fragment under `#`, and the route segments are followed from the root `t`.
pub open spec fn route_request<F>(
    t: PathsView<F>,
    uri: Seq<char>,
    args: Map<Seq<char>, Seq<char>>,
) -> (Option<F>, Map<Seq<char>, Seq<char>>) {
    let (segments, query, fragment) = uri_parts(uri);
    t.route(segments, args_with_query(args, query).insert("#"@, fragment))
}

/// The position of the first node in `store` named `name`.
fn find_in<F>(store: &Vec<Paths<F>>, name: &str) -> (r: Option<usize>)
    ensures
        r matches Some(i) ==> i < store@.len() && find_named(views_of(store@), name@) == Some(
            i as int,
        ),
        r is None ==> find_named(views_of(store@), name@) is None,
{
    let mut i: usize = 0;
    while i < store.len()
        invariant
            i <= store@.len(),
            forall|j: int| 0 <= j < i ==> views_of(store@)[j].name != name@,
        decreases store@.len() - i,
    {
        proof {
            store@[i as int].lemma_view_children();
        }
        if str_eq(store[i].name.as_str(), name) {
            proof {
                lemma_find_named_is(views_of(store@), name@, i as int);
            }
            return Some(i);
        }
        i = i + 1;
    }
    None
}

impl<F> Paths<F> {
    /// Creates a root node.
    pub fn new_root() -> (r: Paths<F>)
        ensures
            r@ == PathsView::<F>::empty(),
            r@.wf(),
            r@.fixed_no_wildcard(),
    {
        let r = Paths {
            name: String::new(),
            function: None,
            sub: Vec::new(),
            variables: Vec::new(),
            wildcard: false,
        };
        proof {
            r.lemma_view_children();
            assert(r@.sub =~= Seq::<PathsView<F>>::empty());
            assert(r@.variables =~= Seq::<PathsView<F>>::empty());
            assert(r@.name =~= Seq::<char>::empty());
            lemma_empty_wf::<F>();
        }
        r
    }

    /// Stores `func` for the given route. A tree of the shape that storing routes
    /// gives keeps it, and a route without wildcard segments puts no wildcard node
    /// among the fixed children.
    pub fn new_route(&mut self, route: &str, func: F)
        ensures
            final(self)@ == old(self)@.added(route_segments(route@), func),
            old(self)@.wf() ==> final(self)@.wf(),
            old(self)@.fixed_no_wildcard() && no_wildcard_segment(route_segments(route@))
                ==> final(self)@.fixed_no_wildcard(),
    {
        let split = Self::route_vec(route);
        self.add_route(&split, 0, func);
        assert(str_views(split@).skip(0) =~= str_views(split@));
        proof {
            if old(self)@.wf() {
                lemma_added_wf(old(self)@, route_segments(route@), func);
            }
            if old(self)@.fixed_no_wildcard() && no_wildcard_segment(route_segments(route@)) {
                lemma_added_fixed_no_wildcard(old(self)@, route_segments(route@), func);
            }
        }
    }

    fn add_route(&mut self, route: &Vec<&str>, from: usize, func: F)
        requires
            from <= route@.len(),
        ensures
            final(self)@ == old(self)@.added(str_views(route@).skip(from as int), func),
        decreases route@.len() - from, 1int,
    {
        let ghost segs = str_views(route@).skip(from as int);
        proof {
            old(self).lemma_view_children();
        }
        if from < route.len() {
            let seg = route[from];
            assert(segs[0] == seg@);
            if !seg.is_empty() {
                let c = seg.get_char(0);
                if c == '*' {
                    self.function = Some(func);
                    self.wildcard = true;
                } else if c == ':' {
                    Self::add_route_to_vec(route, from, &mut self.variables, func);
                } else {
                    Self::add_route_to_vec(route, from, &mut self.sub, func);
                }
            }
        } else {
            self.function = Some(func);
        }
        proof {
            self.lemma_view_children();
        }
    }

    fn add_route_to_vec(route: &Vec<&str>, from: usize, store: &mut Vec<Paths<F>>, func: F)
        requires
            from < route@.len(),
        ensures
            views_of(final(store)@) == added_to(
                views_of(old(store)@),
                str_views(route@).skip(from as int),
                func,
            ),
        decreases route@.len() - from, 0int,
    {
        let n = route.len();
        assert(from + 1 <= n);
        let ghost segs = str_views(route@).skip(from as int);
        let ghost before = views_of(store@);
        assert(segs[0] == route@[from as int]@);
        assert(segs.drop_first() =~= str_views(route@).skip(from as int + 1));
        match find_in(store, route[from]) {
            Some(i) => {
                store[i].add_route(route, from + 1, func);
                assert(views_of(store@) =~= before.update(
                    i as int,
                    before[i as int].added(segs.drop_first(), func),
                ));
                assert(segs.len() > 0);
                assert(find_named(before, segs[0]) == Some(i as int));
                assert(added_to(before, segs, func) == before.update(
                    i as int,
                    before[i as int].added(segs.drop_first(), func),
                ));
            },
            None => {
                let node = Paths {
                    name: route[from].to_owned(),
                    function: None,
                    sub: Vec::new(),
                    variables: Vec::new(),
                    wildcard: false,
                };
                proof {
                    node.lemma_view_children();
                    assert(node@.sub =~= Seq::<PathsView<F>>::empty());
                    assert(node@.variables =~= Seq::<PathsView<F>>::empty());
                    assert(node@ == PathsView::<F>::leaf(segs[0]));
                }
                store.push(node);
                let i = store.len() - 1;
                store[i].add_route(route, from + 1, func);
                assert(views_of(store@) =~= before.push(
                    PathsView::<F>::leaf(segs[0]).added(segs.drop_first(), func),
                ));
                assert(segs.len() > 0);
                assert(find_named(before, segs[0]) is None);
                assert(added_to(before, segs, func) == before.push(
                    PathsView::<F>::leaf(segs[0]).added(segs.drop_first(), func),
                ));
            },
        }
    }
}

impl<F: Copy> Paths<F> {
    /// The first child node named `name`, if any.
    pub fn find_sub(&self, name: &str) -> (r: Option<&Paths<F>>)
        ensures
            match find_named(self@.sub, name@) {
                Some(i) => 0 <= i < self@.sub.len() && (r matches Some(p) && p@ == self@.sub[i]),
                None => r is None,
            },
    {
        proof {
            self.lemma_view_children();
        }
        match find_in(&self.sub, name) {
            Some(i) => Some(&self.sub[i]),
            None => None,
        }
    }

    /// Looks up the function stored for `path` (a URI with optional query and
    /// fragment) and returns it, if there is one, with the arguments found on the way.
    /// In a tree of the shape that storing routes gives, a path routed to no function
    /// gives back just its query pairs and its fragment.
    pub fn router(&self, path: &str) -> (r: (Option<F>, Args))
        ensures
            (r.0, r.1.view()) == route_request(self@, path@, Map::empty()),
            self@.wf() && r.0 is None ==> r.1.view() == args_with_query(
                Map::empty(),
                uri_parts(path@).1,
            ).insert("#"@, uri_parts(path@).2),
    {
        let args = Args::new();
        self.router_with_args(path, args)
    }

    /// Looks up the function stored for `path` like `router`, adding the arguments
    /// found on the way to `args`. The function found does not depend on `args`. In a
    /// tree of the shape that storing routes gives, the arguments come back with the
    /// fragment under `#`, with every key of `args` kept, and with the value kept of
    /// each key of `args` that is not `#` or `*` and starts with neither `?` nor `:`;
    /// when no function is found, only the query pairs and the fragment are added.
    pub fn router_with_args(&self, path: &str, args: Args) -> (r: (Option<F>, Args))
        ensures
            (r.0, r.1.view()) == route_request(self@, path@, args.view()),
            r.0 == route_request(self@, path@, Map::empty()).0,
            self@.wf() ==> r.1.view().dom().contains("#"@) && r.1.view()["#"@] == uri_parts(
                path@,
            ).2,
            self@.wf() ==> args.view().dom().subset_of(r.1.view().dom()),
            self@.wf() ==> forall|k: Seq<char>|
                #[trigger] args.view().dom().contains(k) && k != "#"@ && k != "*"@
                    && !variable_name(k) && !(k.len() > 0 && k[0] == '?') ==> r.1.view()[k]
                    == args.view()[k],
            self@.wf() && r.0 is None ==> r.1.view() == args_with_query(
                args.view(),
                uri_parts(path@).1,
            ).insert("#"@, uri_parts(path@).2),
    {
        proof {
            lemma_router_function_of_uri(self@, path@, args.view(), Map::empty());
            if self@.wf() {
                lemma_router_args(self@, path@, args.view());
            }
        }
        let mut args = args;
        let (route, query, fragment) = Self::split_uri(path);
        Self::add_query_to_args(query, &mut args);
        args.insert("#".to_owned(), fragment.to_owned());
        let found = self.vec_router(&route, 0, &mut args);
        assert(str_views(route@).skip(0) =~= str_views(route@));
        (found, args)
    }

    fn vec_router(&self, route: &Vec<&str>, from: usize, args: &mut Args) -> (r: Option<F>)
        requires
            from <= route@.len(),
        ensures
            (r, final(args).view()) == self@.route(
                str_views(route@).skip(from as int),
                old(args).view(),
            ),
        decreases route@.len() - from, 1int,
    {
        proof {
            self.lemma_view_children();
        }
        let ghost path = str_views(route@).skip(from as int);
        let n = route.len();
        if from == n {
            return self.function;
        }
        assert(path[0] == route@[from as int]@);
        assert(path.drop_first() =~= str_views(route@).skip(from as int + 1));
        if self.wildcard {
            let mut tmp = String::new();
            let mut i: usize = from;
            assert(path.take(0) =~= Seq::<Seq<char>>::empty());
            while i < n
                invariant
                    from <= i <= n,
                    n == route@.len(),
                    path == str_views(route@).skip(from as int),
                    tmp@ == joined(path.take(i - from)),
                decreases n - i,
            {
                tmp.append("/");
                tmp.append(route[i]);
                assert(path.take(i - from + 1).drop_last() =~= path.take(i - from));
                i = i + 1;
            }
            assert(path.take(n - from) =~= path);
            args.insert("*".to_owned(), tmp);
            return self.function;
        }
        match self.find_sub(route[from]) {
            Some(p) => p.vec_router(route, from + 1, args),
            None => self.route_variable(route, from, args),
        }
    }

    fn route_variable(&self, path: &Vec<&str>, from: usize, args: &mut Args) -> (r: Option<F>)
        requires
            from < path@.len(),
        ensures
            (r, final(args).view()) == route_vars(
                self@.variables,
                0,
                str_views(path@).skip(from as int),
                old(args).view(),
            ),
        decreases path@.len() - from, 0int,
    {
        proof {
            self.lemma_view_children();
        }
        let ghost segs = str_views(path@).skip(from as int);
        let ghost vars = self@.variables;
        let ghost start = args.view();
        let n = path.len();
        assert(segs[0] == path@[from as int]@);
        assert(segs.drop_first() =~= str_views(path@).skip(from as int + 1));
        let mut k: usize = 0;
        while k < self.variables.len()
            invariant
                k <= self.variables@.len(),
                vars == self@.variables,
                vars == views_of(self.variables@),
                from < n,
                n == path@.len(),
                segs == str_views(path@).skip(from as int),
                segs.drop_first() == str_views(path@).skip(from as int + 1),
                segs[0] == path@[from as int]@,
                start == old(args).view(),
                route_vars(vars, 0, segs, start) == route_vars(vars, k as int, segs, args.view()),
            decreases self.variables@.len() - k,
        {
            let i = &self.variables[k];
            let ghost a0 = args.view();
            assert(i@ == vars[k as int]);
            let res = i.vec_router(path, from + 1, args);
            let ghost a1 = args.view();
            assert((res, a1) == vars[k as int].route(segs.drop_first(), a0));
            match res {
                Some(func) => {
                    proof {
                        i.lemma_view_children();
                    }
                    let name = i.name.clone();
                    let value = path[from].to_owned();
                    args.insert(name, value);
                    assert(name@ == vars[k as int].name);
                    assert(value@ == segs[0]);
                    assert(args.view() == a1.insert(vars[k as int].name, segs[0]));
                    assert(route_vars(vars, k as int, segs, a0) == (
                        Some(func),
                        a1.insert(vars[k as int].name, segs[0]),
                    ));
                    return Some(func);
                },
                None => {
                    assert(route_vars(vars, k as int, segs, a0) == route_vars(
                        vars,
                        k as int + 1,
                        segs,
                        a1,
                    ));
                },
            }
            k = k + 1;
        }
        None
    }
}

} // verus!
