//! The directory tree of the discovered files.
use vstd::prelude::*;
use crate::text::{lemma_lex_total, lemma_lex_transitive, lex_le, lower_of, push_char, str_lex_le, to_lower};
use crate::types::views;

verus! {

/// A directory or a file, with its children in order.
pub struct TreeNode {
    pub name: String,
    pub is_dir: bool,
    pub children: Vec<TreeNode>,
}

/// A tree node as values.
pub ghost struct Node {
    pub name: Seq<char>,
    pub is_dir: bool,
    pub children: Seq<Node>,
}

pub open spec fn node_view(n: TreeNode) -> Node
    decreases n,
{
    Node {
        name: n.name@,
        is_dir: n.is_dir,
        children: Seq::new(
            n.children@.len(),
            |i: int|
                if 0 <= i < n.children@.len() {
                    node_view(n.children@[i])
                } else {
                    arbitrary()
                },
        ),
    }
}

proof fn lemma_child_view(n: TreeNode, i: int)
    requires
        0 <= i < n.children@.len(),
    ensures
        node_view(n).children.len() == n.children@.len(),
        node_view(n).children[i] == node_view(n.children@[i]),
        node_view(n).children[i].name == n.children@[i].name@,
        node_view(n).children[i].is_dir == n.children@[i].is_dir,
{
    let c = n.children@[i];
    assert(node_view(c).name == c.name@);
}

pub open spec fn node_views(s: Seq<TreeNode>) -> Seq<Node> {
    s.map_values(|t: TreeNode| node_view(t))
}

proof fn lemma_children_view(n: TreeNode)
    ensures
        node_view(n).children == node_views(n.children@),
{
    assert(node_view(n).children =~= node_views(n.children@));
}

impl View for TreeNode {
    type V = Node;

    open spec fn view(&self) -> Node {
        node_view(*self)
    }
}

/// Index of the first child called `name`, or -1.
pub open spec fn child_index(cs: Seq<Node>, name: Seq<char>) -> int
    decreases cs.len(),
{
    if cs.len() == 0 {
        -1
    } else if cs[0].name == name {
        0
    } else {
        let k = child_index(cs.drop_first(), name);
        if k < 0 {
            -1
        } else {
            k + 1
        }
    }
}

/// The tree after the path `comps` is added below `n`: an existing child of
/// the same name is reused, else a new one is appended; the last component is
/// a file where `is_file` holds, every other one a directory.
pub open spec fn insert_path(n: Node, comps: Seq<Seq<char>>, is_file: bool) -> Node
    decreases comps.len(),
{
    if comps.len() == 0 {
        n
    } else {
        let name = comps[0];
        let rest = comps.drop_first();
        let k = child_index(n.children, name);
        if 0 <= k < n.children.len() {
            Node {
                name: n.name,
                is_dir: n.is_dir,
                children: n.children.update(k, insert_path(n.children[k], rest, is_file)),
            }
        } else {
            let fresh = Node { name, is_dir: rest.len() > 0 || !is_file, children: Seq::empty() };
            Node {
                name: n.name,
                is_dir: n.is_dir,
                children: n.children.push(insert_path(fresh, rest, is_file)),
            }
        }
    }
}

/// Directories before files; within one kind, by lower-cased name.
pub open spec fn node_key_le(a: Node, b: Node) -> bool {
    (a.is_dir && !b.is_dir) || (a.is_dir == b.is_dir && lex_le(lower_of(a.name), lower_of(b.name)))
}

/// `x` placed after the last element of `t` that is not greater than it,
/// bubbling from the end (one step of a stable insertion sort).
pub open spec fn insert_sorted(t: Seq<Node>, x: Node) -> Seq<Node>
    decreases t.len(),
{
    if t.len() == 0 {
        seq![x]
    } else if node_key_le(t.last(), x) {
        t.push(x)
    } else {
        insert_sorted(t.drop_last(), x).push(t.last())
    }
}

/// A stable sort of `s` by `node_key_le`.
pub open spec fn sort_seq(s: Seq<Node>) -> Seq<Node>
    decreases s.len(),
{
    if s.len() == 0 {
        s
    } else {
        insert_sorted(sort_seq(s.drop_last()), s.last())
    }
}

/// The tree with the children of every node sorted.
pub open spec fn sort_node(n: Node) -> Node
    decreases n,
{
    Node { name: n.name, is_dir: n.is_dir, children: sort_seq(sort_each(n.children)) }
}

/// Each node of `cs` with its own subtree sorted, in place.
pub open spec fn sort_each(cs: Seq<Node>) -> Seq<Node>
    decreases cs,
{
    if cs.len() == 0 {
        cs
    } else {
        sort_each(cs.subrange(0, cs.len() - 1)).push(sort_node(cs[cs.len() - 1]))
    }
}

proof fn lemma_sort_each(cs: Seq<Node>)
    ensures
        sort_each(cs).len() == cs.len(),
        forall|i: int| 0 <= i < cs.len() ==> #[trigger] sort_each(cs)[i] == sort_node(cs[i]),
    decreases cs.len(),
{
    if cs.len() > 0 {
        let d = cs.subrange(0, cs.len() - 1);
        lemma_sort_each(d);
        assert forall|i: int| 0 <= i < cs.len() implies #[trigger] sort_each(cs)[i] == sort_node(cs[i]) by {
            if i < cs.len() - 1 {
                assert(sort_each(cs)[i] == sort_each(d)[i]);
                assert(d[i] == cs[i]);
            }
        }
    }
}

proof fn lemma_insert_at(t: Seq<Node>, x: Node, p: int)
    requires
        0 <= p <= t.len(),
        p == 0 || node_key_le(t[p - 1], x),
        forall|j: int| p <= j < t.len() ==> !node_key_le(#[trigger] t[j], x),
    ensures
        insert_sorted(t, x) == t.insert(p, x),
    decreases t.len(),
{
    if t.len() == 0 {
        assert(t.insert(p, x) =~= seq![x]);
    } else if node_key_le(t.last(), x) {
        assert(t.insert(p, x) =~= t.push(x));
    } else {
        let d = t.drop_last();
        assert forall|j: int| p <= j < d.len() implies !node_key_le(#[trigger] d[j], x) by {
            assert(d[j] == t[j]);
        }
        if p > 0 {
            assert(d[p - 1] == t[p - 1]);
        }
        lemma_insert_at(d, x, p);
        assert(d.insert(p, x).push(t.last()) =~= t.insert(p, x));
    }
}

fn key_le(a: &TreeNode, b: &TreeNode) -> (r: bool)
    ensures
        r == node_key_le(a@, b@),
{
    proof {
        assert(a@.name == a.name@ && a@.is_dir == a.is_dir);
        assert(b@.name == b.name@ && b@.is_dir == b.is_dir);
    }
    if a.is_dir != b.is_dir {
        return a.is_dir;
    }
    let la = to_lower(a.name.as_str());
    let lb = to_lower(b.name.as_str());
    str_lex_le(la.as_str(), lb.as_str())
}

pub open spec fn connector(is_last: bool) -> Seq<char> {
    if is_last {
        "└── "@
    } else {
        "├── "@
    }
}

pub open spec fn indent(is_last: bool) -> Seq<char> {
    if is_last {
        "    "@
    } else {
        "│   "@
    }
}

/// The line of one node below the root: prefix, connector, name, and a `/`
/// for a directory.
pub open spec fn node_line(n: Node, prefix: Seq<char>, is_last: bool) -> Seq<char> {
    prefix + connector(is_last) + n.name + (if n.is_dir {
        "/"@
    } else {
        Seq::empty()
    })
}

/// The lines of a node and of everything below it. The root itself gives no
/// line, and its children no indentation.
pub open spec fn render_node(n: Node, prefix: Seq<char>, is_last: bool, is_root: bool) -> Seq<
    Seq<char>,
>
    decreases n, 0int,
{
    let own: Seq<Seq<char>> = if is_root {
        Seq::empty()
    } else {
        seq![node_line(n, prefix, is_last)]
    };
    let next = if is_root {
        Seq::empty()
    } else {
        prefix + indent(is_last)
    };
    own + render_children(n.children, next, n.children.len() as int)
}

/// The lines of the first `k` nodes of `cs`, the last of `cs` drawn as last.
pub open spec fn render_children(cs: Seq<Node>, prefix: Seq<char>, k: int) -> Seq<Seq<char>>
    decreases cs, k,
{
    if k <= 0 || k > cs.len() {
        Seq::empty()
    } else {
        render_children(cs, prefix, k - 1) + render_node(cs[k - 1], prefix, k - 1 == cs.len() - 1, false)
    }
}

impl TreeNode {
    pub fn new(name: String, is_dir: bool) -> (r: TreeNode)
        ensures
            r@ == (Node { name: name@, is_dir, children: Seq::empty() }),
    {
        let r = TreeNode { name, is_dir, children: Vec::new() };
        assert(r@.children =~= Seq::<Node>::empty());
        r
    }

    fn find_child(&self, name: &String) -> (r: Option<usize>)
        ensures
            match r {
                Some(i) => i < self.children@.len() && child_index(self@.children, name@) == i,
                None => child_index(self@.children, name@) == -1,
            },
    {
        let ghost cs = self@.children;
        let mut i: usize = 0;
        assert(cs.subrange(0, cs.len() as int) =~= cs);
        while i < self.children.len()
            invariant
                cs == self@.children,
                cs.len() == self.children@.len(),
                i <= cs.len(),
                child_index(cs, name@) == (if child_index(cs.subrange(i as int, cs.len() as int), name@) < 0 {
                    -1
                } else {
                    i + child_index(cs.subrange(i as int, cs.len() as int), name@)
                }),
            decreases cs.len() - i,
        {
            let ghost rest = cs.subrange(i as int, cs.len() as int);
            assert(rest[0] == cs[i as int]);
            proof {
                lemma_child_view(*self, i as int);
            }
            if self.children[i].name == *name {
                return Some(i);
            }
            assert(rest.drop_first() =~= cs.subrange(i + 1, cs.len() as int));
            i = i + 1;
        }
        None
    }

    /// Adds the path `components[start..]` below this node.
    pub fn add_path(&mut self, components: &Vec<String>, start: usize, is_file: bool)
        requires
            start <= components@.len(),
        ensures
            final(self)@ == insert_path(old(self)@, views(components@).subrange(start as int, components@.len() as int), is_file),
        decreases components@.len() - start,
    {
        let ghost comps = views(components@).subrange(start as int, components@.len() as int);
        if start >= components.len() {
            return;
        }
        let ghost before = self@;
        let name = &components[start];
        assert(comps[0] == name@);
        assert(comps.drop_first() =~= views(components@).subrange(start + 1, components@.len() as int));
        match self.find_child(name) {
            Some(i) => {
                let mut child = self.children.remove(i);
                assert(child@ == before.children[i as int]);
                child.add_path(components, start + 1, is_file);
                self.children.insert(i, child);
                assert(self@.children =~= before.children.update(i as int, child@));
            },
            None => {
                let is_dir = start + 1 < components.len() || !is_file;
                let mut child = TreeNode::new(name.clone(), is_dir);
                child.add_path(components, start + 1, is_file);
                self.children.push(child);
                assert(self@.children =~= before.children.push(child@));
            },
        }
    }


    /// Sorts the children of every node: directories first, then by
    /// lower-cased name; equal keys keep their order.
    pub fn sort(&mut self)
        ensures
            final(self)@ == sort_node(old(self)@),
        decreases *old(self),
    {
        let ghost orig = self.children@;
        let ghost sc = sort_each(old(self)@.children);
        proof {
            lemma_children_view(*old(self));
            lemma_sort_each(old(self)@.children);
            assert forall|i: int| 0 <= i < orig.len() implies sc[i] == sort_node(node_view(#[trigger] orig[i])) by {
                assert(old(self)@.children[i] == node_view(orig[i]));
            }
        }
        let mut taken: Vec<TreeNode> = Vec::new();
        core::mem::swap(&mut taken, &mut self.children);
        let mut sorted: Vec<TreeNode> = Vec::new();
        let n = taken.len();
        let mut k: usize = 0;
        while k < n
            invariant
                n == orig.len(),
                sc.len() == n,
                k <= n,
                taken@ == orig.subrange(k as int, n as int),
                node_views(sorted@) == sort_seq(sc.subrange(0, k as int)),
                forall|i: int| 0 <= i < n ==> sc[i] == sort_node(node_view(#[trigger] orig[i])),
                forall|i: int| 0 <= i < n ==> decreases_to!(*old(self) => #[trigger] orig[i]),
            decreases n - k,
        {
            let mut c = taken.remove(0);
            assert(c == orig[k as int]);
            assert(decreases_to!(*old(self) => c));
            c.sort();
            let mut p: usize = sorted.len();
            while p > 0 && !key_le(&sorted[p - 1], &c)
                invariant
                    p <= sorted@.len(),
                    forall|j: int| p <= j < sorted@.len() ==> !node_key_le(#[trigger] node_views(sorted@)[j], c@),
                decreases p,
            {
                p = p - 1;
            }
            proof {
                let t = node_views(sorted@);
                if p > 0 {
                    assert(t[p - 1] == node_view(sorted@[p - 1]));
                }
                lemma_insert_at(t, c@, p as int);
                assert(sc.subrange(0, k + 1).drop_last() =~= sc.subrange(0, k as int));
                assert(sc.subrange(0, k + 1).last() == sc[k as int]);
            }
            let ghost before = node_views(sorted@);
            sorted.insert(p, c);
            assert(node_views(sorted@) =~= before.insert(p as int, c@));
            assert(taken@ =~= orig.subrange(k + 1, n as int));
            k = k + 1;
        }
        self.children = sorted;
        proof {
            assert(sc.subrange(0, n as int) =~= sc);
            lemma_children_view(*self);

        }
    }

    /// Appends the lines of this node and of everything below it.
    pub fn render(&self, prefix: &String, is_last: bool, lines: &mut Vec<String>, is_root: bool)
        ensures
            views(final(lines)@) == views(old(lines)@) + render_node(self@, prefix@, is_last, is_root),
        decreases self,
    {
        let ghost me = self@;
        proof {
            lemma_children_view(*self);
            assert(me.name == self.name@ && me.is_dir == self.is_dir);
        }
        let ghost own: Seq<Seq<char>> = if is_root {
            Seq::empty()
        } else {
            seq![node_line(me, prefix@, is_last)]
        };
        if !is_root {
            let mut line = prefix.clone();
            if is_last {
                line.append("└── ");
            } else {
                line.append("├── ");
            }
            line.append(self.name.as_str());
            if self.is_dir {
                line.append("/");
            } else {
                assert(line@ =~= line@ + Seq::<char>::empty());
            }
            let ghost before = views(lines@);
            lines.push(line);
            assert(views(lines@) =~= before.push(line@));
        }
        assert(views(lines@) =~= views(old(lines)@) + own);
        let next = if is_root {
            String::new()
        } else {
            let mut p = prefix.clone();
            if is_last {
                p.append("    ");
            } else {
                p.append("│   ");
            }
            p
        };
        let count = self.children.len();
        let mut i: usize = 0;
        while i < count
            invariant
                count == self.children@.len(),
                count == me.children.len(),
                me == self@,
                me.children == node_views(self.children@),
                i <= count,
                next@ == (if is_root { Seq::empty() } else { prefix@ + indent(is_last) }),
                views(lines@) == views(old(lines)@) + own + render_children(me.children, next@, i as int),
            decreases count - i,
        {
            assert(decreases_to!(self => self.children));
            assert(decreases_to!(self.children => self.children@));
            assert(decreases_to!(self.children@ => self.children@[i as int]));
            let ghost before = views(lines@);
            self.children[i].render(&next, i == count - 1, lines, false);
            assert(me.children[i as int] == self.children@[i as int]@);
            assert(views(lines@) =~= views(old(lines)@) + own + render_children(me.children, next@, i + 1));
            i = i + 1;
        }
    }
}

/// Splits `p` at every `/`; pieces may be empty.
pub open spec fn pieces(p: Seq<char>) -> Seq<Seq<char>>
    decreases p.len(),
{
    if p.len() == 0 {
        seq![Seq::empty()]
    } else {
        let s = pieces(p.drop_last());
        if p.last() == '/' {
            s.push(Seq::empty())
        } else {
            s.update(s.len() - 1, s.last().push(p.last()))
        }
    }
}

proof fn lemma_pieces_nonempty(p: Seq<char>)
    ensures
        pieces(p).len() >= 1,
    decreases p.len(),
{
    if p.len() > 0 {
        lemma_pieces_nonempty(p.drop_last());
    }
}

proof fn lemma_pieces_concat(a: Seq<char>, b: Seq<char>)
    ensures
        pieces(a + seq!['/'] + b) == pieces(a) + pieces(b),
    decreases b.len(),
{
    let ab = a + seq!['/'] + b;
    if b.len() == 0 {
        assert(ab.drop_last() =~= a);
        assert(pieces(a) + pieces(b) =~= pieces(a).push(Seq::empty()));
    } else {
        let b2 = b.drop_last();
        lemma_pieces_concat(a, b2);
        lemma_pieces_nonempty(b2);
        assert(ab.drop_last() =~= a + seq!['/'] + b2);
        assert(ab.last() == b.last());
        let s = pieces(a) + pieces(b2);
        if b.last() == '/' {
            assert(s.push(Seq::empty()) =~= pieces(a) + pieces(b2).push(Seq::empty()));
        } else {
            let t = pieces(b2);
            assert(s.update(s.len() - 1, s.last().push(b.last())) =~= pieces(a) + t.update(
                t.len() - 1,
                t.last().push(b.last()),
            ));
        }
    }
}

/// The components of `a/b` are those of `a` followed by those of `b`.
pub proof fn lemma_components_concat(a: Seq<char>, b: Seq<char>)
    ensures
        components(a + seq!['/'] + b) == components(a) + components(b),
{
    lemma_pieces_concat(a, b);
    Seq::filter_distributes_over_add(pieces(a), pieces(b), nonempty());
}

pub open spec fn nonempty() -> spec_fn(Seq<char>) -> bool {
    |x: Seq<char>| x.len() > 0
}

/// The components of a relative path: the non-empty pieces between `/`.
pub open spec fn components(p: Seq<char>) -> Seq<Seq<char>> {
    pieces(p).filter(nonempty())
}

/// Splits a relative path into its components.
pub fn split_components(p: &str) -> (r: Vec<String>)
    ensures
        views(r@) == components(p@),
{
    let n = p.unicode_len();
    let mut out: Vec<String> = Vec::new();
    let mut cur = String::new();
    let mut i: usize = 0;
    assert(p@.subrange(0, 0) =~= Seq::<char>::empty());
    assert(pieces(Seq::<char>::empty()).drop_last().filter(nonempty()) =~= Seq::<Seq<char>>::empty());
    while i < n
        invariant
            n == p@.len(),
            i <= n,
            pieces(p@.subrange(0, i as int)).len() >= 1,
            views(out@) == pieces(p@.subrange(0, i as int)).drop_last().filter(nonempty()),
            cur@ == pieces(p@.subrange(0, i as int)).last(),
        decreases n - i,
    {
        let c = p.get_char(i);
        let ghost pre = p@.subrange(0, i as int);
        let ghost s = pieces(pre);
        assert(p@.subrange(0, i + 1).drop_last() =~= pre);
        assert(p@.subrange(0, i + 1).last() == c);
        if c == '/' {
            proof {
                assert(pieces(p@.subrange(0, i + 1)) == s.push(Seq::empty()));
                assert(s.push(Seq::empty()).drop_last() =~= s);
                assert(s =~= s.drop_last().push(s.last()));
                s.drop_last().lemma_filter_push(s.last(), nonempty());
            }
            if cur.unicode_len() > 0 {
                let ghost before = views(out@);
                out.push(cur);
                assert(views(out@) =~= before.push(s.last()));
            }
            cur = String::new();
        } else {
            push_char(&mut cur, c);
            let ghost t = s.update(s.len() - 1, s.last().push(c));
            assert(pieces(p@.subrange(0, i + 1)) == t);
            assert(t.drop_last() =~= s.drop_last());
        }
        i = i + 1;
    }
    assert(p@.subrange(0, n as int) =~= p@);
    let ghost s = pieces(p@);
    proof {
        assert(s =~= s.drop_last().push(s.last()));
        s.drop_last().lemma_filter_push(s.last(), nonempty());
    }
    if cur.unicode_len() > 0 {
        let ghost before = views(out@);
        out.push(cur);
        assert(views(out@) =~= before.push(s.last()));
    }
    out
}

/// The tree of a list of relative paths, under a root called `label`.
pub open spec fn build_tree(label: Seq<char>, paths: Seq<Seq<char>>) -> Node
    decreases paths.len(),
{
    if paths.len() == 0 {
        Node { name: label, is_dir: true, children: Seq::empty() }
    } else {
        let t = build_tree(label, paths.drop_last());
        let c = components(paths.last());
        if c.len() > 0 {
            insert_path(t, c, true)
        } else {
            t
        }
    }
}

/// The rendered tree: a header line `label/`, then one line per node below
/// the root, with the children of every node sorted.
pub open spec fn tree_lines(label: Seq<char>, paths: Seq<Seq<char>>) -> Seq<Seq<char>> {
    seq![label + "/"@] + render_node(sort_node(build_tree(label, paths)), Seq::empty(), true, true)
}

/// Renders the directory tree of the given relative paths.
pub fn generate_tree(files: &Vec<String>, project_name: &str) -> (r: Vec<String>)
    ensures
        views(r@) == tree_lines(project_name@, views(files@)),
{
    let mut root = TreeNode::new(String::from_str(project_name), true);
    let mut i: usize = 0;
    while i < files.len()
        invariant
            i <= files@.len(),
            root@ == build_tree(project_name@, views(files@).subrange(0, i as int)),
        decreases files@.len() - i,
    {
        let comps = split_components(files[i].as_str());
        let ghost pre = views(files@).subrange(0, i + 1);
        assert(pre.drop_last() =~= views(files@).subrange(0, i as int));
        assert(pre.last() == files@[i as int]@);
        if comps.len() > 0 {
            root.add_path(&comps, 0, true);
            assert(views(comps@).subrange(0, comps@.len() as int) =~= views(comps@));
        }
        i = i + 1;
    }
    assert(views(files@).subrange(0, i as int) =~= views(files@));
    root.sort();
    let mut lines: Vec<String> = Vec::new();
    let mut header = String::from_str(project_name);
    header.append("/");
    lines.push(header);
    assert(views(lines@) =~= seq![project_name@ + "/"@]);
    root.render(&String::new(), true, &mut lines, true);
    lines
}

/// Neighbouring nodes are in order.
pub open spec fn adjacent_sorted(s: Seq<Node>) -> bool {
    forall|i: int| 0 <= i < s.len() - 1 ==> node_key_le(#[trigger] s[i], s[i + 1])
}

/// Every node is in order with every later one.
pub open spec fn pairwise_sorted(s: Seq<Node>) -> bool {
    forall|i: int, j: int| 0 <= i < j < s.len() ==> node_key_le(#[trigger] s[i], #[trigger] s[j])
}

proof fn lemma_key_transitive(a: Node, b: Node, c: Node)
    requires
        node_key_le(a, b),
        node_key_le(b, c),
    ensures
        node_key_le(a, c),
{
    if a.is_dir == b.is_dir && b.is_dir == c.is_dir {
        lemma_lex_transitive(lower_of(a.name), lower_of(b.name), lower_of(c.name));
    }
}

proof fn lemma_adjacent_to_pairwise(s: Seq<Node>)
    requires
        adjacent_sorted(s),
    ensures
        pairwise_sorted(s),
    decreases s.len(),
{
    if s.len() > 1 {
        let d = s.drop_last();
        assert forall|i: int| 0 <= i < d.len() - 1 implies node_key_le(#[trigger] d[i], d[i + 1]) by {
            assert(d[i] == s[i] && d[i + 1] == s[i + 1]);
        }
        lemma_adjacent_to_pairwise(d);
        assert forall|i: int, j: int| 0 <= i < j < s.len() implies node_key_le(#[trigger] s[i], #[trigger] s[j]) by {
            if j < s.len() - 1 {
                assert(d[i] == s[i] && d[j] == s[j]);
            } else if i < s.len() - 2 {
                assert(d[i] == s[i] && d[s.len() - 2] == s[s.len() - 2]);
                assert(node_key_le(s[s.len() - 2], s[s.len() - 1]));
                lemma_key_transitive(s[i], s[s.len() - 2], s[j]);
            }
        }
    }
}

/// At every level, directories come before files and names of one kind
/// ascend, ignoring case: every child is in order with every later one.
pub open spec fn sorted_tree(n: Node) -> bool
    decreases n,
{
    &&& pairwise_sorted(n.children)
    &&& forall|i: int| 0 <= i < n.children.len() ==> sorted_tree(#[trigger] n.children[i])
}

proof fn lemma_insert_sorted(t: Seq<Node>, x: Node)
    requires
        adjacent_sorted(t),
    ensures
        adjacent_sorted(insert_sorted(t, x)),
        insert_sorted(t, x).len() == t.len() + 1,
        insert_sorted(t, x).last() == x || (t.len() > 0 && insert_sorted(t, x).last() == t.last()),
        forall|j: int| 0 <= j < insert_sorted(t, x).len() ==> (#[trigger] insert_sorted(t, x)[j] == x || t.contains(insert_sorted(t, x)[j])),
    decreases t.len(),
{
    let r = insert_sorted(t, x);
    if t.len() == 0 {
    } else if node_key_le(t.last(), x) {
        assert forall|j: int| 0 <= j < r.len() implies (#[trigger] r[j] == x || t.contains(r[j])) by {
            if j < t.len() {
                assert(r[j] == t[j]);
            }
        }
    } else {
        let d = t.drop_last();
        assert forall|i: int| 0 <= i < d.len() - 1 implies node_key_le(#[trigger] d[i], d[i + 1]) by {
            assert(d[i] == t[i] && d[i + 1] == t[i + 1]);
        }
        lemma_insert_sorted(d, x);
        let m = insert_sorted(d, x);
        lemma_lex_total(lower_of(x.name), lower_of(t.last().name));
        if m.last() != x {
            assert(t[t.len() - 2] == d.last());
        }
        assert(node_key_le(m.last(), t.last()));
        assert forall|i: int| 0 <= i < r.len() - 1 implies node_key_le(#[trigger] r[i], r[i + 1]) by {
            if i < m.len() - 1 {
                assert(r[i] == m[i] && r[i + 1] == m[i + 1]);
            } else {
                assert(r[i] == m.last());
            }
        }
        assert forall|j: int| 0 <= j < r.len() implies (#[trigger] r[j] == x || t.contains(r[j])) by {
            if j < m.len() {
                assert(r[j] == m[j]);
                if m[j] != x {
                    let k = choose|k: int| 0 <= k < d.len() && d[k] == m[j];
                    assert(t[k] == d[k]);
                }
            } else {
                assert(r[j] == t[t.len() - 1]);
            }
        }
    }
}

proof fn lemma_sort_seq(s: Seq<Node>)
    ensures
        adjacent_sorted(sort_seq(s)),
        sort_seq(s).len() == s.len(),
        forall|j: int| 0 <= j < sort_seq(s).len() ==> s.contains(#[trigger] sort_seq(s)[j]),
    decreases s.len(),
{
    if s.len() > 0 {
        let d = s.drop_last();
        lemma_sort_seq(d);
        lemma_insert_sorted(sort_seq(d), s.last());
        let r = sort_seq(s);
        assert forall|j: int| 0 <= j < r.len() implies s.contains(#[trigger] r[j]) by {
            if r[j] != s.last() {
                let k = choose|k: int| 0 <= k < sort_seq(d).len() && sort_seq(d)[k] == r[j];
                let k2 = choose|k2: int| 0 <= k2 < d.len() && d[k2] == sort_seq(d)[k];
                assert(s[k2] == d[k2]);
            } else {
                assert(s[s.len() - 1] == s.last());
            }
        }
    }
}

/// The tree that generate_tree renders is sorted at every level: directories
/// before files, and within one kind by lower-cased name.
pub proof fn lemma_sorted_at_every_level(n: Node)
    ensures
        sorted_tree(sort_node(n)),
    decreases n,
{
    lemma_sort_each(n.children);
    lemma_sort_seq(sort_each(n.children));
    lemma_adjacent_to_pairwise(sort_seq(sort_each(n.children)));
    let cs = sort_node(n).children;
    assert forall|i: int| 0 <= i < cs.len() implies sorted_tree(#[trigger] cs[i]) by {
        let k = choose|k: int| 0 <= k < sort_each(n.children).len() && sort_each(n.children)[k] == cs[i];
        lemma_sorted_at_every_level(n.children[k]);
    }
}

} // verus!
