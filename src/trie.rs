use vstd::prelude::*;
use crate::parsers::Parser;
use crate::text::{chars_of, string_of};
use vstd::string::StrSliceExecFns;

verus! {

broadcast use vstd::std_specs::vec::group_vec_axioms;

/// The bindings of a match, as (parser name, matched text) pairs.
pub type Bindings = Seq<(Seq<char>, Seq<char>)>;

pub open spec fn bindings_view(v: Seq<(String, String)>) -> Bindings {
    v.map_values(|p: (String, String)| (p.0@, p.1@))
}

/// A segment of a compiled pattern: a literal or a parser.
pub enum NodeType {
    Parser(Parser),
    Literal(String),
}

/// A pattern: its uuid and its compiled segments.
pub struct Pattern {
    pub uuid: String,
    pub pattern: Vec<NodeType>,
}

impl Pattern {
    pub fn new(uuid: &str, pattern: Vec<NodeType>) -> (r: Pattern)
        requires
            uuid@.len() > 0,
        ensures
            r.spec_uuid() == uuid@,
            r.spec_segments() == pattern@,
    {
        Pattern { uuid: uuid.to_string(), pattern }
    }

    pub open spec fn spec_uuid(&self) -> Seq<char> {
        self.uuid@
    }

    pub open spec fn spec_segments(&self) -> Seq<NodeType> {
        self.pattern@
    }

    pub fn uuid(&self) -> (r: &String)
        ensures
            r@ == self.spec_uuid(),
    {
        &self.uuid
    }
}

/// What an insertion did at the pattern's end node.
#[derive(Debug, PartialEq, Eq, Structural)]
pub enum InsertOutcome {
    Inserted,
    Replaced,
}

#[derive(Debug, PartialEq, Eq, Structural)]
pub enum InsertError {
    /// The pattern has no segments, or a literal segment is empty.
    InvalidPattern,
}

/// No literal segment follows another: literal text is never split across
/// segments.
pub open spec fn no_adjacent_literals(p: Seq<NodeType>) -> bool {
    forall|i: int| 0 <= i < p.len() - 1 ==> !(#[trigger] p[i] is Literal && p[i + 1] is Literal)
}

/// A pattern that can be inserted: it has a segment, and no literal segment is empty.
pub open spec fn valid_segments(p: Seq<NodeType>) -> bool {
    p.len() > 0 && forall|i: int|
        0 <= i < p.len() ==> match #[trigger] p[i] {
            NodeType::Literal(l) => l@.len() > 0,
            NodeType::Parser(_) => true,
        }
}

/// An edge labelled by a non-empty literal.
pub struct LiteralNode {
    pub literal: Vec<char>,
    pub node: Box<Node>,
}

/// An edge labelled by a parser.
pub struct ParserNode {
    pub parser: Parser,
    pub node: Box<Node>,
}

/// A node of the pattern trie: literal edges sorted by label, parser edges in
/// the order they were added, and the uuid of the pattern that ends here.
pub struct Node {
    pub literal_children: Vec<LiteralNode>,
    pub parser_children: Vec<ParserNode>,
    pub pattern: Option<String>,
}

/// `l` stands in `input` at `pos`.
pub open spec fn is_prefix_at(l: Seq<char>, input: Seq<char>, pos: int) -> bool {
    0 <= pos && pos + l.len() <= input.len() && input.subrange(pos, pos + l.len()) == l
}

pub open spec fn result_view(r: Option<(Vec<(String, String)>, String)>) -> Option<
    (Bindings, Seq<char>),
> {
    match r {
        Some(p) => Some((bindings_view(p.0@), p.1@)),
        None => None,
    }
}

/// A second vector of the same pairs.
pub(crate) fn copy_pairs(v: &Vec<(String, String)>) -> (r: Vec<(String, String)>)
    ensures
        r@ == v@,
{
    let mut r: Vec<(String, String)> = Vec::new();
    let mut i: usize = 0;
    while i < v.len()
        invariant
            i <= v@.len(),
            r@ == v@.take(i as int),
        decreases v@.len() - i,
    {
        r.push((v[i].0.clone(), v[i].1.clone()));
        proof {
            assert(r@ =~= v@.take(i + 1));
        }
        i = i + 1;
    }
    proof {
        assert(r@ =~= v@);
    }
    r
}

fn prefix_at(l: &Vec<char>, input: &Vec<char>, pos: usize) -> (r: bool)
    requires
        pos <= input@.len(),
    ensures
        r == is_prefix_at(l@, input@, pos as int),
{
    if l.len() > input.len() - pos {
        return false;
    }
    let n: usize = input.len();
    let mut i: usize = 0;
    while i < l.len()
        invariant
            n == input@.len(),
            pos + l@.len() <= n,
            i <= l@.len(),
            forall|j: int| 0 <= j < i ==> input@[pos + j] == l@[j],
        decreases l@.len() - i,
    {
        if input[pos + i] != l[i] {
            assert(input@.subrange(pos as int, pos + l@.len())[i as int] != l@[i as int]);
            return false;
        }
        i = i + 1;
    }
    assert(input@.subrange(pos as int, pos + l@.len()) =~= l@);
    true
}

impl LiteralNode {
    /// The label is not empty and the node below is well formed.
    pub open spec fn wf(&self) -> bool {
        self.literal@.len() > 0 && (*self.node).wf()
    }

    /// An edge labelled `literal` that leads to a new, empty node.
    pub fn from_str(literal: &str) -> (r: LiteralNode)
        requires
            literal@.len() > 0,
        ensures
            r.wf(),
            r.label() == literal@,
    {
        LiteralNode { literal: chars_of(literal), node: Box::new(Node::new()) }
    }
    pub open spec fn label(&self) -> Seq<char> {
        self.literal@
    }

    pub fn literal(&self) -> (r: String)
        ensures
            r@ == self.label(),
    {
        string_of(&self.literal, 0, self.literal.len())
    }
}

impl Node {
    /// Literal labels are non-empty and strictly ordered by their first
    /// character (so no two of them share a non-empty prefix), parser edges
    /// are pairwise different, and every child is well formed.
    pub open spec fn wf(&self) -> bool
        decreases self,
    {
        &&& (self.pattern is Some ==> self.pattern->Some_0@.len() > 0)
        &&& forall|i: int|
            0 <= i < self.literal_children@.len() ==> #[trigger] self.literal_children@[i].literal@.len()
                > 0
        &&& forall|i: int, j: int|
            0 <= i < j < self.literal_children@.len() ==> self.literal_children@[i].literal@[0]
                < self.literal_children@[j].literal@[0]
        &&& forall|i: int, j: int|
            0 <= i < j < self.parser_children@.len() ==> !self.parser_children@[i].parser.same_as(
                &self.parser_children@[j].parser,
            )
        &&& forall|i: int|
            0 <= i < self.literal_children@.len() ==> (*#[trigger] self.literal_children@[i].node).wf()
        &&& forall|i: int|
            0 <= i < self.parser_children@.len() ==> (*#[trigger] self.parser_children@[i].node).wf()
    }

    /// The literal edge whose label starts with `c`, or -1.
    pub open spec fn literal_child(&self, c: char) -> int {
        if exists|i: int|
            0 <= i < self.literal_children@.len() && #[trigger] self.literal_children@[i].literal@[0]
                == c {
            choose|i: int|
                0 <= i < self.literal_children@.len() && #[trigger] self.literal_children@[i].literal@[0]
                    == c
        } else {
            -1
        }
    }

    /// What a match of `input` from `pos` at this node gives: the bindings and
    /// the uuid of the pattern reached. `stage` 0 tries the literal edge,
    /// stage `j` (from 1) the `j`-th parser edge, and past them the node's
    /// own pattern, which matches only at the end of the input.
    pub open spec fn match_from(&self, input: Seq<char>, pos: int, stage: int) -> Option<
        (Bindings, Seq<char>),
    >
        decreases self, self.parser_children@.len() + 1 - stage,
    {
        if stage <= 0 {
            let i = if 0 <= pos < input.len() {
                self.literal_child(input[pos])
            } else {
                -1
            };
            let via = if i >= 0 && is_prefix_at(self.literal_children@[i].literal@, input, pos) {
                (*self.literal_children@[i].node).match_from(
                    input,
                    pos + self.literal_children@[i].literal@.len(),
                    0,
                )
            } else {
                None
            };
            if via is Some {
                via
            } else {
                self.match_from(input, pos, 1)
            }
        } else if stage <= self.parser_children@.len() {
            let e = self.parser_children@[stage - 1];
            let via = match crate::parsers::match_len(e.parser, input, pos) {
                Some(n) => match (*e.node).match_from(input, pos + n, 0) {
                    Some(m) => Some(
                        (
                            seq![(e.parser.spec_name(), input.subrange(pos, pos + n))] + m.0,
                            m.1,
                        ),
                    ),
                    None => None,
                },
                None => None,
            };
            if via is Some {
                via
            } else {
                self.match_from(input, pos, stage + 1)
            }
        } else if pos == input.len() && self.pattern is Some {
            Some((Seq::empty(), self.pattern->Some_0@))
        } else {
            None
        }
    }

    /// `u` is stored at this node or below it.
    pub open spec fn stores(&self, u: Seq<char>) -> bool
        decreases self,
    {
        ||| (self.pattern is Some && self.pattern->Some_0@ == u)
        ||| exists|i: int|
            0 <= i < self.literal_children@.len() && (*#[trigger] self.literal_children@[i].node).stores(
                u,
            )
        ||| exists|i: int|
            0 <= i < self.parser_children@.len() && (*#[trigger] self.parser_children@[i].node).stores(
                u,
            )
    }

    /// A match ends at a stored pattern: what it returns is that pattern's
    /// uuid, with the values bound along the way.
    pub proof fn lemma_match_is_stored(&self, input: Seq<char>, pos: int, stage: int)
        requires
            self.match_from(input, pos, stage) is Some,
        ensures
            self.stores(self.match_from(input, pos, stage)->Some_0.1),
        decreases self, self.parser_children@.len() + 1 - stage,
    {
        let u = self.match_from(input, pos, stage)->Some_0.1;
        if stage <= 0 {
            let i = if 0 <= pos < input.len() {
                self.literal_child(input[pos])
            } else {
                -1
            };
            if i >= 0 && is_prefix_at(self.literal_children@[i].literal@, input, pos) {
                let c = *self.literal_children@[i].node;
                let np = pos + self.literal_children@[i].literal@.len();
                if c.match_from(input, np, 0) is Some {
                    assert(i < self.literal_children@.len()) by {
                        self.lemma_literal_child_found(input[pos]);
                    }
                    c.lemma_match_is_stored(input, np, 0);
                    return;
                }
            }
            self.lemma_match_is_stored(input, pos, 1);
        } else if stage <= self.parser_children@.len() {
            let e = self.parser_children@[stage - 1];
            match crate::parsers::match_len(e.parser, input, pos) {
                Some(n) => {
                    if (*e.node).match_from(input, pos + n, 0) is Some {
                        (*e.node).lemma_match_is_stored(input, pos + n, 0);
                        assert((*self.parser_children@[stage - 1].node).stores(u));
                        return;
                    }
                },
                None => {},
            }
            self.lemma_match_is_stored(input, pos, stage + 1);
        }
    }

    pub fn new() -> (r: Node)
        ensures
            r.wf(),
            r.is_empty_node(),
    {
        Node { literal_children: Vec::new(), parser_children: Vec::new(), pattern: None }
    }

    pub open spec fn literal_count(&self) -> nat {
        self.literal_children@.len()
    }

    pub open spec fn literal_edge(&self, i: int) -> LiteralNode {
        self.literal_children@[i]
    }

    pub open spec fn is_empty_node(&self) -> bool {
        self.literal_children@.len() == 0 && self.parser_children@.len() == 0
            && self.pattern is None
    }

    pub open spec fn spec_is_leaf(&self) -> bool {
        self.literal_children@.len() == 0 && self.parser_children@.len() == 0
    }

    /// No edge leaves this node.
    pub fn is_leaf(&self) -> (r: bool)
        ensures
            r == self.spec_is_leaf(),
    {
        self.literal_children.len() == 0 && self.parser_children.len() == 0
    }

    /// Matches `input` from `pos`: the literal edge first, then the parser
    /// edges in order, backtracking out of every branch that fails; at the
    /// end of the input, the node's own pattern.
    fn parse_from(&self, input: &Vec<char>, pos: usize) -> (r: Option<(Vec<(String, String)>, String)>)
        requires
            self.wf(),
            pos <= input@.len(),
        ensures
            result_view(r) == self.match_from(input@, pos as int, 0),
            r is Some ==> r->Some_0.1@.len() > 0,
        decreases self,
    {
        if pos < input.len() {
            if let Ok(i) = self.find_literal(input[pos]) {
                let e = &self.literal_children[i];
                if prefix_at(&e.literal, input, pos) {
                    assert((*e.node).wf());
                    let res = e.node.parse_from(input, pos + e.literal.len());
                    if res.is_some() {
                        return res;
                    }
                }
            }
        }
        let len: usize = input.len();
        let mut j: usize = 0;
        while j < self.parser_children.len()
            invariant
                len == input@.len(),
                self.wf(),
                pos <= input@.len(),
                j <= self.parser_children@.len(),
                self.match_from(input@, pos as int, 0) == self.match_from(input@, pos as int, j + 1),
            decreases self.parser_children@.len() - j,
        {
            let e = &self.parser_children[j];
            if let Some(n) = e.parser.parse(input, pos) {
                assert((*e.node).wf());
                let res = e.node.parse_from(input, pos + n);
                if let Some((b, u)) = res {
                    let value = string_of(input, pos, pos + n);
                    let mut bindings = b;
                    let ghost before = bindings@;
                    bindings.insert(0, (e.parser.name().clone(), value));
                    proof {
                        assert(bindings_view(bindings@) =~= seq![
                            (e.parser.spec_name(), input@.subrange(pos as int, pos + n)),
                        ] + bindings_view(before));
                    }
                    return Some((bindings, u));
                }
            }
            j = j + 1;
        }
        if pos == input.len() {
            if let Some(u) = &self.pattern {
                proof {
                    assert(bindings_view(Seq::<(String, String)>::empty()) =~= Seq::empty());
                }
                return Some((Vec::new(), u.clone()));
            }
        }
        None
    }

    /// The parser edge that is the same segment as `p`, or -1.
    pub open spec fn parser_child(&self, p: Parser) -> int {
        if exists|i: int|
            0 <= i < self.parser_children@.len() && #[trigger] self.parser_children@[i].parser.same_as(
                &p,
            ) {
            choose|i: int|
                0 <= i < self.parser_children@.len() && #[trigger] self.parser_children@[i].parser.same_as(
                    &p,
                )
        } else {
            -1
        }
    }

    /// The uuid stored at the end of the walk that spells out `segs` from
    /// segment `k`, of whose literal the first `from` characters are already
    /// spelled; `None` where the walk leaves the trie or ends at a node
    /// without a pattern. Literal text may run over several edges.
    pub open spec fn find(&self, segs: Seq<NodeType>, k: int, from: int) -> Option<Seq<char>>
        decreases self, segs.len() - k,
    {
        if k >= segs.len() {
            match self.pattern {
                Some(u) => Some(u@),
                None => None,
            }
        } else {
            match segs[k] {
                NodeType::Literal(l) => {
                    if from >= l@.len() {
                        self.find(segs, k + 1, 0)
                    } else {
                        let i = self.literal_child(l@[from]);
                        if i >= 0 && is_prefix_at(self.literal_children@[i].literal@, l@, from) {
                            (*self.literal_children@[i].node).find(
                                segs,
                                k,
                                from + self.literal_children@[i].literal@.len(),
                            )
                        } else {
                            None
                        }
                    }
                },
                NodeType::Parser(p) => {
                    let i = self.parser_child(p);
                    if i >= 0 {
                        (*self.parser_children@[i].node).find(segs, k + 1, 0)
                    } else {
                        None
                    }
                },
            }
        }
    }

    pub proof fn lemma_literal_child_is(&self, i: int)
        requires
            self.wf(),
            0 <= i < self.literal_children@.len(),
        ensures
            self.literal_child(self.literal_children@[i].literal@[0]) == i,
    {
        let c = self.literal_children@[i].literal@[0];
        assert(self.literal_children@[i].literal@[0] == c);
        let k = self.literal_child(c);
        assert(0 <= k < self.literal_children@.len() && self.literal_children@[k].literal@[0] == c);
        if k < i {
            assert(self.literal_children@[k].literal@[0] < self.literal_children@[i].literal@[0]);
        } else if k > i {
            assert(self.literal_children@[i].literal@[0] < self.literal_children@[k].literal@[0]);
        }
    }

    pub proof fn lemma_parser_child_is(&self, i: int, p: Parser)
        requires
            self.wf(),
            0 <= i < self.parser_children@.len(),
            self.parser_children@[i].parser.same_as(&p),
        ensures
            self.parser_child(p) == i,
    {
        let k = self.parser_child(p);
        assert(0 <= k < self.parser_children@.len() && self.parser_children@[k].parser.same_as(&p));
        if k < i {
            assert(!self.parser_children@[k].parser.same_as(&self.parser_children@[i].parser));
        } else if k > i {
            assert(!self.parser_children@[i].parser.same_as(&self.parser_children@[k].parser));
        }
    }

    proof fn lemma_literal_child_found(&self, c: char)
        ensures
            self.literal_child(c) >= 0 ==> self.literal_child(c) < self.literal_children@.len()
                && self.literal_children@[self.literal_child(c)].literal@[0] == c,
    {
    }

    proof fn lemma_parser_child_found(&self, p: Parser)
        ensures
            self.parser_child(p) >= 0 ==> self.parser_child(p) < self.parser_children@.len()
                && self.parser_children@[self.parser_child(p)].parser.same_as(&p),
    {
    }

    /// A literal step looks at the literal edges alone.
    proof fn lemma_same_literals(a: Node, b: Node, segs: Seq<NodeType>, k: int, from: int)
        requires
            a.literal_children == b.literal_children,
            k < segs.len(),
            segs[k] is Literal,
            from < segs[k]->Literal_0@.len(),
        ensures
            a.find(segs, k, from) == b.find(segs, k, from),
    {
    }

    /// A parser step looks at the parser edges alone.
    proof fn lemma_same_parsers(a: Node, b: Node, segs: Seq<NodeType>, k: int, from: int)
        requires
            a.parser_children == b.parser_children,
            k < segs.len(),
            segs[k] is Parser,
        ensures
            a.find(segs, k, from) == b.find(segs, k, from),
    {
    }

    proof fn lemma_empty_find(&self, segs: Seq<NodeType>, k: int)
        requires
            self.is_empty_node(),
        ensures
            self.find(segs, k, 0) is None,
        decreases segs.len() - k,
    {
        if k < segs.len() {
            match segs[k] {
                NodeType::Literal(l) => {
                    if l@.len() == 0 {
                        self.lemma_empty_find(segs, k + 1);
                    }
                },
                NodeType::Parser(_) => {},
            }
        }
    }

    /// Walks `segs` from segment `k` down the trie, adding what is missing,
    /// and stores `uuid` at the end.
    fn insert_segments(&mut self, segs: &Vec<NodeType>, k: usize, uuid: &String) -> (r: InsertOutcome)
        requires
            old(self).wf(),
            k <= segs@.len(),
            uuid@.len() > 0,
        ensures
            final(self).wf(),
            final(self).find(segs@, k as int, 0) == Some(uuid@),
            old(self).find(segs@, k as int, 0) is Some ==> r == InsertOutcome::Replaced,
            no_adjacent_literals(segs@) && old(self).find(segs@, k as int, 0) is None ==> r
                == InsertOutcome::Inserted,
            keeps(*old(self), *final(self), uuid@),
            stores_within(*old(self), *final(self), uuid@),
            first_step(*old(self), *final(self), segs@, k as int, uuid@),
            old(self).is_empty_node() ==> built_from_empty(*final(self), segs@, k as int, uuid@),
            new_branch(*old(self), *final(self), segs@, k as int, uuid@),
            walk_effect(*old(self), *final(self), segs@, k as int, uuid@),
        decreases segs@.len() - k, 1nat, 0nat,
    {
        if k == segs.len() {
            let r = if self.pattern.is_some() {
                InsertOutcome::Replaced
            } else {
                InsertOutcome::Inserted
            };
            self.pattern = Some(uuid.clone());
            proof {
                let a = *old(self);
                assert forall|segs2: Seq<NodeType>, k2: int, from2: int|
                    is_step(segs2, k2, from2) && #[trigger] a.find(segs2, k2, from2) is Some implies (
                    self.find(segs2, k2, from2) == a.find(segs2, k2, from2) || self.find(
                        segs2,
                        k2,
                        from2,
                    ) == Some(uuid@)) by {
                    if k2 < segs2.len() {
                        if segs2[k2] is Literal {
                            Node::lemma_same_literals(a, *self, segs2, k2, from2);
                        } else {
                            Node::lemma_same_parsers(a, *self, segs2, k2, from2);
                        }
                    }
                }
                lemma_keeps(a, *self, uuid@);
            }
            return r;
        }
        match &segs[k] {
            NodeType::Literal(text) => {
                let l = chars_of(text.as_str());
                assert(segs@[k as int] == NodeType::Literal(*text));
                self.insert_literal(segs, k, &l, 0, uuid)
            },
            NodeType::Parser(p) => {
                let mut j: usize = 0;
                while j < self.parser_children.len() && !self.parser_children[j].parser.same(p)
                    invariant
                        j <= self.parser_children@.len(),
                        forall|jj: int|
                            0 <= jj < j ==> !self.parser_children@[jj].parser.same_as(p),
                    decreases self.parser_children@.len() - j,
                {
                    j = j + 1;
                }
                if j < self.parser_children.len() {
                    proof {
                        self.lemma_parser_child_is(j as int, *p);
                    }
                    let ghost before = self.parser_children@;
                    let e = self.parser_children.remove(j);
                    let ParserNode { parser, node } = e;
                    let mut child = *node;
                    let ghost c0 = child;
                    let r = child.insert_segments(segs, k + 1, uuid);
                    let ghost c1 = child;
                    self.parser_children.insert(j, ParserNode { parser, node: Box::new(child) });
                    proof {
                        assert(self.parser_children@ =~= before.update(
                            j as int,
                            self.parser_children@[j as int],
                        ));
                        assert(self.parser_children@[j as int].parser.same_as(p));
                        self.lemma_parser_child_is(j as int, *p);
                        let a = *old(self);
                        assert(a.parser_children@ == before);
                        assert(a.literal_children == self.literal_children);
                        assert(a.pattern == self.pattern);
                        assert(c0 == *before[j as int].node);
                        assert(c1 == *self.parser_children@[j as int].node);
                        assert forall|segs2: Seq<NodeType>, k2: int, from2: int|
                            is_step(segs2, k2, from2) && #[trigger] a.find(segs2, k2, from2) is Some implies (
                            self.find(segs2, k2, from2) == a.find(segs2, k2, from2) || self.find(
                                segs2,
                                k2,
                                from2,
                            ) == Some(uuid@)) by {
                            if k2 < segs2.len() {
                                if segs2[k2] is Literal {
                                    Node::lemma_same_literals(a, *self, segs2, k2, from2);
                                } else {
                                    let p2 = segs2[k2]->Parser_0;
                                    a.lemma_parser_child_found(p2);
                                    let q = a.parser_child(p2);
                                    assert(self.parser_children@[q].parser == a.parser_children@[q].parser);
                                    self.lemma_parser_child_is(q, p2);
                                    if q == j {
                                        assert(c0.find(segs2, k2 + 1, 0) is Some);
                                    } else {
                                        assert(self.parser_children@[q] == a.parser_children@[q]);
                                    }
                                }
                            }
                        }
                        lemma_keeps(a, *self, uuid@);
                        assert(a.parser_child(*p) == j);
                        assert(segs@[k as int] == NodeType::Parser(*p));
                        assert forall|v: Seq<char>| c0.stores(v) implies a.stores(v) by {
                            assert((*a.parser_children@[j as int].node).stores(v));
                        }
                        lemma_stores_via_child(a, c0, c1, uuid@);
                        lemma_stores_parser_edge(a, *self, j as int, uuid@);
                    }
                    r
                } else {
                    proof {
                        if self.parser_child(*p) >= 0 {
                            let q = self.parser_child(*p);
                            assert(self.parser_children@[q].parser.same_as(p));
                        }
                    }
                    let ghost before = self.parser_children@;
                    let mut child = Node::new();
                    let ghost c0 = child;
                    proof {
                        child.lemma_empty_find(segs@, k + 1);
                    }
                    let r = child.insert_segments(segs, k + 1, uuid);
                    let ghost c1 = child;
                    let parser = p.copy();
                    self.parser_children.push(ParserNode { parser, node: Box::new(child) });
                    proof {
                        let n = self.parser_children@.len() - 1;
                        assert(self.parser_children@[n].parser.same_as(p));
                        assert forall|a: int, b: int|
                            0 <= a < b < self.parser_children@.len() implies !self.parser_children@[a].parser.same_as(
                            &self.parser_children@[b].parser,
                        ) by {
                            if b == n {
                                assert(!before[a].parser.same_as(p));
                            }
                        }
                        self.lemma_parser_child_is(n, *p);
                        let a = *old(self);
                        assert(a.parser_children@ == before);
                        assert(a.literal_children == self.literal_children);
                        assert(a.pattern == self.pattern);
                        assert forall|segs2: Seq<NodeType>, k2: int, from2: int|
                            is_step(segs2, k2, from2) && #[trigger] a.find(segs2, k2, from2) is Some implies (
                            self.find(segs2, k2, from2) == a.find(segs2, k2, from2) || self.find(
                                segs2,
                                k2,
                                from2,
                            ) == Some(uuid@)) by {
                            if k2 < segs2.len() {
                                if segs2[k2] is Literal {
                                    Node::lemma_same_literals(a, *self, segs2, k2, from2);
                                } else {
                                    let p2 = segs2[k2]->Parser_0;
                                    a.lemma_parser_child_found(p2);
                                    let q = a.parser_child(p2);
                                    assert(self.parser_children@[q] == a.parser_children@[q]);
                                    self.lemma_parser_child_is(q, p2);
                                }
                            }
                        }
                        lemma_keeps(a, *self, uuid@);
                        assert(a.parser_child(*p) == -1);
                        assert(self.parser_children@.drop_last() =~= a.parser_children@);
                        assert(segs@[k as int] == NodeType::Parser(*p));
                        assert forall|v: Seq<char>| c0.stores(v) implies a.stores(v) by {
                            lemma_empty_stores_nothing(c0, v);
                        }
                        lemma_stores_via_child(a, c0, c1, uuid@);
                        assert(*self.parser_children@[n].node == c1);
                        lemma_stores_parser_edge(a, *self, n, uuid@);
                    }
                    r
                }
            },
        }
    }

    /// Spells out the literal `l` of segment `k` from character `from`,
    /// following, splitting or adding literal edges, then goes on with the
    /// next segment.
    #[verifier::rlimit(100)]
    fn insert_literal(
        &mut self,
        segs: &Vec<NodeType>,
        k: usize,
        l: &Vec<char>,
        from: usize,
        uuid: &String,
    ) -> (r: InsertOutcome)
        requires
            old(self).wf(),
            k < segs@.len(),
            uuid@.len() > 0,
            segs@[k as int] is Literal,
            segs@[k as int]->Literal_0@ == l@,
            from <= l@.len(),
        ensures
            final(self).wf(),
            final(self).find(segs@, k as int, from as int) == Some(uuid@),
            old(self).find(segs@, k as int, from as int) is Some ==> r == InsertOutcome::Replaced,
            no_adjacent_literals(segs@) && old(self).find(segs@, k as int, from as int) is None ==> r
                == InsertOutcome::Inserted,
            keeps(*old(self), *final(self), uuid@),
            stores_within(*old(self), *final(self), uuid@),
            from < l@.len() ==> literal_step(*old(self), *final(self), l@, from as int),
            old(self).is_empty_node() ==> fresh_literal(*final(self), segs@, k as int, l@, from as int, uuid@),
            from < l@.len() && old(self).literal_child(l@[from as int]) < 0 ==> built_from_empty(
                *final(self).literal_children@[final(self).literal_child(l@[from as int])].node,
                segs@,
                k + 1,
                uuid@,
            ),
            literal_walk(*old(self), *final(self), segs@, k as int, l@, from as int, uuid@),
        decreases segs@.len() - k, 0nat, l@.len() - from,
    {
        proof {
            assert(segs@.len() == segs.len());
        }
        if from == l.len() {
            return self.insert_segments(segs, k + 1, uuid);
        }
        let ghost before = self.literal_children@;
        match self.find_literal(l[from]) {
            Err(pos) => {
                let mut child = Node::new();
                let ghost c0 = child;
                proof {
                    child.lemma_empty_find(segs@, k + 1);
                }
                let r = child.insert_segments(segs, k + 1, uuid);
                let ghost c1 = child;
                let label = crate::text::sub_chars(l, from, l.len());
                self.literal_children.insert(pos, LiteralNode { literal: label, node: Box::new(child) });
                proof {
                    assert(self.literal_children@ =~= before.insert(
                        pos as int,
                        self.literal_children@[pos as int],
                    ));
                    self.lemma_literal_child_is(pos as int);
                    assert(self.literal_children@[pos as int].literal@ == label@);
                    assert(is_prefix_at(label@, l@, from as int));
                    assert(self.literal_child(l@[from as int]) == pos);
                    assert(child.find(segs@, k as int, l@.len() as int) == Some(uuid@));
                    assert(*self.literal_children@[pos as int].node == child);
                    let a = *old(self);
                    assert(a.literal_children@ == before);
                    lemma_keeps_new_edge(a, *self, pos as int, uuid@);
                    assert(self.literal_children@.remove(pos as int) =~= before);
                    assert(label@ =~= l@.subrange(from as int, l@.len() as int));
                    assert forall|v: Seq<char>| c0.stores(v) implies a.stores(v) by {
                        lemma_empty_stores_nothing(c0, v);
                    }
                    lemma_stores_via_child(a, c0, c1, uuid@);
                    assert forall|x: int|
                        0 <= x < self.literal_children@.len() && x != pos implies exists|y: int|
                            0 <= y < a.literal_children@.len() && #[trigger] self.literal_children@[x].node
                                == a.literal_children@[y].node by {
                        let y = if x < pos {
                            x
                        } else {
                            x - 1
                        };
                        assert(self.literal_children@[x] == a.literal_children@[y]);
                    }
                    lemma_stores_literal_edge(a, *self, pos as int, uuid@);
                }
                r
            },
            Ok(i) => {
                proof {
                    assert(before[i as int].literal@[0] == l@[from as int]);
                }
                let e = self.literal_children.remove(i);
                let LiteralNode { literal, node } = e;
                let cp = crate::text::common_prefix_len(&literal, l, from);
                if cp == literal.len() {
                    let mut child = *node;
                    let ghost c0 = child;
                    let r = child.insert_literal(segs, k, l, from + cp, uuid);
                    let ghost c1 = child;
                    self.literal_children.insert(i, LiteralNode { literal, node: Box::new(child) });
                    proof {
                        assert(self.literal_children@ =~= before.update(
                            i as int,
                            self.literal_children@[i as int],
                        ));
                        self.lemma_literal_child_is(i as int);
                        assert(literal@ =~= literal@.subrange(0, cp as int));
                        let a = *old(self);
                        assert(a.literal_children@ == before);
                        lemma_keeps_new_child(a, *self, i as int, c0, c1, uuid@);
                        assert(a.literal_child(l@[from as int]) == i);
                        assert(self.literal_children@[i as int].literal@ == literal@);
                        assert forall|v: Seq<char>| c0.stores(v) implies a.stores(v) by {
                            assert((*a.literal_children@[i as int].node).stores(v));
                        }
                        lemma_stores_via_child(a, c0, c1, uuid@);
                        assert forall|x: int|
                            0 <= x < self.literal_children@.len() && x != i implies exists|y: int|
                                0 <= y < a.literal_children@.len() && #[trigger] self.literal_children@[x].node
                                    == a.literal_children@[y].node by {
                            assert(self.literal_children@[x] == a.literal_children@[x]);
                        }
                        lemma_stores_literal_edge(a, *self, i as int, uuid@);
                    }
                    r
                } else {
                    let prefix = crate::text::sub_chars(&literal, 0, cp);
                    let suffix = crate::text::sub_chars(&literal, cp, literal.len());
                    let mut mid = Node::new();
                    mid.literal_children.push(LiteralNode { literal: suffix, node });
                    proof {
                        assert(suffix@[0] == literal@[cp as int]);
                        if from + cp < l@.len() {
                            mid.lemma_literal_child_is(0);
                            assert(mid.literal_child(l@[from + cp]) == -1);
                        } else if no_adjacent_literals(segs@) {
                            assert(mid.find(segs@, k as int, from + cp) == mid.find(segs@, k + 1, 0));
                            if k + 1 < segs@.len() {
                                assert(!(segs@[k as int] is Literal && segs@[k + 1] is Literal));
                                assert(mid.parser_child(segs@[k + 1]->Parser_0) == -1);
                            }
                        }
                    }
                    let ghost m0 = mid;
                    let r = mid.insert_literal(segs, k, l, from + cp, uuid);
                    let ghost m1 = mid;
                    self.literal_children.insert(i, LiteralNode { literal: prefix, node: Box::new(mid) });
                    proof {
                        assert(self.literal_children@ =~= before.update(
                            i as int,
                            self.literal_children@[i as int],
                        ));
                        assert(prefix@[0] == literal@[0]);
                        self.lemma_literal_child_is(i as int);
                        if is_prefix_at(literal@, l@, from as int) {
                            assert(l@.subrange(from as int, from + literal@.len())[cp as int] == literal@[cp as int]);
                        }
                        let a = *old(self);
                        assert(a.literal_children@ == before);
                        assert(m0.literal_children@[0].node == before[i as int].node);
                        lemma_keeps_split(a, *self, i as int, cp as int, m0, m1, uuid@);
                        assert(a.literal_child(l@[from as int]) == i);
                        assert(self.literal_children@[i as int].literal@ == prefix@);
                        assert(*self.literal_children@[i as int].node == m1);
                        if from + cp < l@.len() {
                            let q = m1.literal_child(l@[from + cp]);
                            assert(m1.literal_children@.remove(q) == m0.literal_children@);
                            let o = 1 - q;
                            assert(m1.literal_children@[o] == m0.literal_children@[0]);
                            m1.lemma_literal_child_is(o);
                            assert(m0.literal_children@[0].literal@ == suffix@);
                        }
                        assert forall|v: Seq<char>| m0.stores(v) implies a.stores(v) by {
                            if m0.stores(v) {
                                assert((*m0.literal_children@[0].node).stores(v));
                                assert((*a.literal_children@[i as int].node).stores(v));
                            }
                        }
                        lemma_stores_via_child(a, m0, m1, uuid@);
                        assert forall|x: int|
                            0 <= x < self.literal_children@.len() && x != i implies exists|y: int|
                                0 <= y < a.literal_children@.len() && #[trigger] self.literal_children@[x].node
                                    == a.literal_children@[y].node by {
                            assert(self.literal_children@[x] == a.literal_children@[x]);
                        }
                        lemma_stores_literal_edge(a, *self, i as int, uuid@);
                    }
                    r
                }
            },
        }
    }

    /// Adds a literal edge at its place in the order of labels, unless an
    /// edge starting with the same character is already there: then nothing
    /// changes and the result is `false`.
    pub fn add_literal_node(&mut self, lnode: LiteralNode) -> (r: bool)
        requires
            old(self).wf(),
            lnode.wf(),
        ensures
            final(self).wf(),
            r == (old(self).literal_child(lnode.label()[0]) == -1),
            !r ==> *final(self) == *old(self),
            r ==> final(self).literal_count() == old(self).literal_count() + 1,
            r ==> final(self).literal_child(lnode.label()[0]) >= 0,
            r ==> final(self).literal_children@ == old(self).literal_children@.insert(
                final(self).literal_child(lnode.label()[0]),
                lnode,
            ),
            final(self).parser_children == old(self).parser_children,
            final(self).pattern == old(self).pattern,
    {
        let ghost before = self.literal_children@;
        match self.find_literal(lnode.literal[0]) {
            Ok(_) => false,
            Err(pos) => {
                self.literal_children.insert(pos, lnode);
                proof {
                    assert(self.literal_children@ =~= before.insert(pos as int, lnode));
                    self.lemma_literal_child_is(pos as int);
                }
                true
            },
        }
    }

    /// The node reached by spelling the non-empty `literal` along literal
    /// edges from here; an empty literal reaches nothing.
    pub fn lookup_literal(&self, literal: &str) -> (r: Option<&Node>)
        requires
            self.wf(),
        ensures
            literal@.len() == 0 ==> r is None,
            literal@.len() > 0 ==> r.is_some() == self.lookup(literal@, 0).is_some(),
            literal@.len() > 0 && r.is_some() ==> *r.unwrap() == self.lookup(literal@, 0).unwrap(),
    {
        let l = chars_of(literal);
        if l.len() == 0 {
            return None;
        }
        self.lookup_from(&l, 0)
    }

    fn lookup_from(&self, l: &Vec<char>, from: usize) -> (r: Option<&Node>)
        requires
            self.wf(),
            from <= l@.len(),
        ensures
            r.is_some() == self.lookup(l@, from as int).is_some(),
            r.is_some() ==> *r.unwrap() == self.lookup(l@, from as int).unwrap(),
        decreases self,
    {
        if from == l.len() {
            return Some(self);
        }
        match self.find_literal(l[from]) {
            Ok(i) => {
                let e = &self.literal_children[i];
                if prefix_at(&e.literal, l, from) {
                    assert((*e.node).wf());
                    e.node.lookup_from(l, from + e.literal.len())
                } else {
                    None
                }
            },
            Err(_) => None,
        }
    }

    /// The node at the end of the literal path that spells `l` from `from`.
    pub open spec fn lookup(&self, l: Seq<char>, from: int) -> Option<Node>
        decreases self,
    {
        if from >= l.len() {
            Some(*self)
        } else {
            let i = self.literal_child(l[from]);
            if i >= 0 && is_prefix_at(self.literal_children@[i].literal@, l, from) {
                (*self.literal_children@[i].node).lookup(
                    l,
                    from + self.literal_children@[i].literal@.len(),
                )
            } else {
                None
            }
        }
    }

    /// Stores `pattern` at the end of the walk that spells its segments,
    /// adding and splitting edges as needed. A pattern without segments, or
    /// with an empty literal, is refused and the trie is left as it was.
    pub fn insert(&mut self, pattern: Pattern) -> (r: Result<InsertOutcome, InsertError>)
        requires
            old(self).wf(),
            pattern.spec_uuid().len() > 0,
        ensures
            final(self).wf(),
            r is Err <==> !valid_segments(pattern.spec_segments()),
            r is Err ==> r->Err_0 == InsertError::InvalidPattern && *final(self) == *old(self),
            r is Ok ==> final(self).find(pattern.spec_segments(), 0, 0) == Some(pattern.spec_uuid()),
            r is Ok && old(self).find(pattern.spec_segments(), 0, 0) is Some ==> r->Ok_0
                == InsertOutcome::Replaced,
            r is Ok && no_adjacent_literals(pattern.spec_segments()) && old(self).find(
                pattern.spec_segments(),
                0,
                0,
            ) is None ==> r->Ok_0 == InsertOutcome::Inserted,
            r is Ok ==> keeps(*old(self), *final(self), pattern.spec_uuid()),
            r is Ok ==> stores_within(*old(self), *final(self), pattern.spec_uuid()),
            r is Ok ==> walk_effect(*old(self), *final(self), pattern.spec_segments(), 0, pattern.spec_uuid()),
            r is Ok ==> first_step(*old(self), *final(self), pattern.spec_segments(), 0, pattern.spec_uuid()),
            r is Ok ==> new_branch(*old(self), *final(self), pattern.spec_segments(), 0, pattern.spec_uuid()),
            r is Ok && old(self).is_empty_node() ==> built_from_empty(
                *final(self),
                pattern.spec_segments(),
                0,
                pattern.spec_uuid(),
            ),
    {
        if pattern.pattern.len() == 0 {
            return Err(InsertError::InvalidPattern);
        }
        let mut i: usize = 0;
        while i < pattern.pattern.len()
            invariant
                self.wf(),
                i <= pattern.pattern@.len(),
                forall|j: int|
                    0 <= j < i ==> match #[trigger] pattern.pattern@[j] {
                        NodeType::Literal(l) => l@.len() > 0,
                        NodeType::Parser(_) => true,
                    },
            decreases pattern.pattern@.len() - i,
        {
            if let NodeType::Literal(text) = &pattern.pattern[i] {
                if text.as_str().unicode_len() == 0 {
                    return Err(InsertError::InvalidPattern);
                }
            }
            i = i + 1;
        }
        Ok(self.insert_segments(&pattern.pattern, 0, &pattern.uuid))
    }

    /// Binary search of the literal edges by first character: `Ok` with the
    /// edge that starts with `c`, or `Err` with where such an edge would go.
    fn find_literal(&self, c: char) -> (r: Result<usize, usize>)
        requires
            self.wf(),
        ensures
            r is Ok ==> r->Ok_0 < self.literal_children@.len() && self.literal_child(c)
                == r->Ok_0 as int,
            r is Err ==> r->Err_0 <= self.literal_children@.len() && self.literal_child(c) == -1,
            r is Err ==> forall|j: int|
                0 <= j < r->Err_0 ==> self.literal_children@[j].literal@[0] < c,
            r is Err ==> forall|j: int|
                r->Err_0 <= j < self.literal_children@.len() ==> c < 
                self.literal_children@[j].literal@[0],
    {
        let ghost lits = self.literal_children@;
        let mut lo: usize = 0;
        let mut hi: usize = self.literal_children.len();
        while lo < hi
            invariant
                lits == self.literal_children@,
                self.wf(),
                lo <= hi <= lits.len(),
                forall|j: int| 0 <= j < lo ==> lits[j].literal@[0] < c,
                forall|j: int| hi <= j < lits.len() ==> c < lits[j].literal@[0],
            decreases hi - lo,
        {
            let mid = lo + (hi - lo) / 2;
            let first = self.literal_children[mid].literal[0];
            if first == c {
                proof {
                    assert(lits[mid as int].literal@[0] == c);
                    let k = self.literal_child(c);
                    assert(0 <= k < lits.len() && lits[k].literal@[0] == c);
                    if k < mid {
                        assert(lits[k].literal@[0] < lits[mid as int].literal@[0]);
                    } else if k > mid {
                        assert(lits[mid as int].literal@[0] < lits[k].literal@[0]);
                    }
                }
                return Ok(mid);
            } else if first < c {
                proof {
                    assert forall|j: int| 0 <= j < mid + 1 implies lits[j].literal@[0] < c by {
                        if j < mid {
                            assert(lits[j].literal@[0] < lits[mid as int].literal@[0]);
                        }
                    }
                }
                lo = mid + 1;
            } else {
                proof {
                    assert forall|j: int| mid <= j < lits.len() implies c < lits[j].literal@[0] by {
                        if j > mid {
                            assert(lits[mid as int].literal@[0] < lits[j].literal@[0]);
                        }
                    }
                }
                hi = mid;
            }
        }
        proof {
            if exists|i: int| 0 <= i < lits.len() && #[trigger] lits[i].literal@[0] == c {
                let k = choose|i: int| 0 <= i < lits.len() && #[trigger] lits[i].literal@[0] == c;
                assert(k < lo || k >= hi);
            }
        }
        Err(lo)
    }
}

/// What spelling the literal `l` from `from` does to the literal edges of
/// the node where it starts. Where no edge starts with `l[from]`, one edge
/// labelled `l[from..]` is added at its place in the order of labels.
/// Otherwise the edge that does keeps its place and is relabelled by the
/// longest common prefix of its label and `l[from..]`; where that prefix is
/// shorter than the label, the edge now leads to a node that holds the rest
/// of the old label (over the old node) and, where `l` goes on, one more
/// edge for the rest of `l`. Parser edges and the stored pattern stay.
pub open spec fn literal_step(a: Node, b: Node, l: Seq<char>, from: int) -> bool {
    let c = l[from];
    let j = a.literal_child(c);
    &&& b.parser_children == a.parser_children
    &&& b.pattern == a.pattern
    &&& if j < 0 {
        &&& b.literal_children@.len() == a.literal_children@.len() + 1
        &&& b.literal_child(c) >= 0
        &&& b.literal_children@[b.literal_child(c)].literal@ == l.subrange(from, l.len() as int)
        &&& b.literal_children@.remove(b.literal_child(c)) == a.literal_children@
    } else {
        let lab = a.literal_children@[j].literal@;
        let nl = b.literal_children@[j].literal@;
        let n = nl.len() as int;
        let m = *b.literal_children@[j].node;
        &&& b.literal_children@.len() == a.literal_children@.len()
        &&& forall|x: int|
            0 <= x < a.literal_children@.len() && x != j ==> #[trigger] b.literal_children@[x]
                == a.literal_children@[x]
        &&& 0 < n <= lab.len()
        &&& from + n <= l.len()
        &&& nl == lab.subrange(0, n)
        &&& nl == l.subrange(from, from + n)
        &&& (n < lab.len() ==> (from + n == l.len() || lab[n] != l[from + n]))
        &&& (n < lab.len() && from + n < l.len() ==> {
            &&& m.literal_children@.len() == 2
            &&& m.parser_children@.len() == 0
            &&& m.pattern is None
            &&& m.literal_children@[m.literal_child(lab[n])].literal@ == lab.subrange(
                n,
                lab.len() as int,
            )
            &&& m.literal_children@[m.literal_child(lab[n])].node == a.literal_children@[j].node
            &&& m.literal_children@[m.literal_child(l[from + n])].literal@ == l.subrange(
                from + n,
                l.len() as int,
            )
        })
    }
}

/// What a parser segment `p` does to the parser edges of the node where it
/// starts: an edge for the same parser is reused, otherwise one is appended
/// after the others. Literal edges and the stored pattern stay.
pub open spec fn parser_step(a: Node, b: Node, p: Parser) -> bool {
    let j = a.parser_child(p);
    &&& b.literal_children == a.literal_children
    &&& b.pattern == a.pattern
    &&& if j < 0 {
        &&& b.parser_children@.len() == a.parser_children@.len() + 1
        &&& b.parser_children@.drop_last() == a.parser_children@
        &&& b.parser_children@.last().parser.same_as(&p)
    } else {
        &&& b.parser_children@.len() == a.parser_children@.len()
        &&& forall|x: int|
            0 <= x < a.parser_children@.len() && x != j ==> #[trigger] b.parser_children@[x]
                == a.parser_children@[x]
        &&& b.parser_children@[j].parser == a.parser_children@[j].parser
    }
}

/// What inserting `segs` from segment `k` does to the node where it starts.
pub open spec fn first_step(a: Node, b: Node, segs: Seq<NodeType>, k: int, u: Seq<char>) -> bool {
    if k >= segs.len() {
        &&& b.literal_children == a.literal_children
        &&& b.parser_children == a.parser_children
        &&& b.pattern is Some && b.pattern->Some_0@ == u
    } else {
        match segs[k] {
            NodeType::Literal(l) => l@.len() > 0 ==> literal_step(a, b, l@, 0),
            NodeType::Parser(p) => parser_step(a, b, p),
        }
    }
}

/// Inserting two literals that share a non-empty common prefix `p` (of
/// length `m`, shorter than both) into an empty node leaves one literal edge
/// labelled `p`, whose node has exactly two literal edges, labelled by the
/// two rests.
pub proof fn lemma_common_prefix_split(
    n0: Node,
    n1: Node,
    n2: Node,
    a: String,
    b: String,
    ua: Seq<char>,
    ub: Seq<char>,
    m: int,
)
    requires
        n0.wf(),
        n1.wf(),
        n2.wf(),
        n0.is_empty_node(),
        first_step(n0, n1, seq![NodeType::Literal(a)], 0, ua),
        first_step(n1, n2, seq![NodeType::Literal(b)], 0, ub),
        0 < m < a@.len(),
        m < b@.len(),
        a@.subrange(0, m) == b@.subrange(0, m),
        a@[m] != b@[m],
    ensures
        n2.literal_children@.len() == 1,
        n2.literal_children@[0].literal@ == a@.subrange(0, m),
        (*n2.literal_children@[0].node).literal_children@.len() == 2,
        (*n2.literal_children@[0].node).literal_children@[(*n2.literal_children@[0].node).literal_child(
            a@[m],
        )].literal@ == a@.subrange(m, a@.len() as int),
        (*n2.literal_children@[0].node).literal_children@[(*n2.literal_children@[0].node).literal_child(
            b@[m],
        )].literal@ == b@.subrange(m, b@.len() as int),
{
    let al = a@;
    let bl = b@;
    assert(seq![NodeType::Literal(a)][0] == NodeType::Literal(a));
    assert(seq![NodeType::Literal(b)][0] == NodeType::Literal(b));
    assert(n0.literal_child(al[0]) == -1);
    assert(n1.literal_children@.len() == 1);
    let j1 = n1.literal_child(al[0]);
    assert(j1 == 0);
    assert(n1.literal_children@[0].literal@ == al.subrange(0, al.len() as int));
    assert(al.subrange(0, m)[0] == bl.subrange(0, m)[0]);
    assert(bl[0] == al[0]);
    n1.lemma_literal_child_is(0);
    assert(n1.literal_child(bl[0]) == 0);
    let lab = n1.literal_children@[0].literal@;
    assert(lab =~= al);
    let nl = n2.literal_children@[0].literal@;
    let n = nl.len() as int;
    assert(nl == lab.subrange(0, n));
    assert(nl == bl.subrange(0, n));
    if n > m {
        assert(nl[m] == al[m]);
        assert(nl[m] == bl[m]);
    }
    if n < m {
        assert(al.subrange(0, m)[n] == bl.subrange(0, m)[n]);
        assert(al[n] == bl[n]);
    }
    assert(n == m);
    assert(nl =~= al.subrange(0, m));
}

/// `n` is exactly the chain that spelling `segs` from segment `k` builds
/// from an empty node: one edge per segment (an empty literal adds none),
/// ending at a leaf that stores `u`.
pub open spec fn built_from_empty(n: Node, segs: Seq<NodeType>, k: int, u: Seq<char>) -> bool
    decreases segs.len() - k, 1int,
{
    if k >= segs.len() {
        &&& n.literal_children@.len() == 0
        &&& n.parser_children@.len() == 0
        &&& n.pattern is Some && n.pattern->Some_0@ == u
    } else {
        match segs[k] {
            NodeType::Literal(l) => fresh_literal(n, segs, k, l@, 0, u),
            NodeType::Parser(p) => {
                &&& n.literal_children@.len() == 0
                &&& n.parser_children@.len() == 1
                &&& n.pattern is None
                &&& n.parser_children@[0].parser.same_as(&p)
                &&& built_from_empty(*n.parser_children@[0].node, segs, k + 1, u)
            },
        }
    }
}

/// `n` is what spelling the literal `l` of segment `k` from `from`, and
/// the segments after it, builds from an empty node.
pub open spec fn fresh_literal(
    n: Node,
    segs: Seq<NodeType>,
    k: int,
    l: Seq<char>,
    from: int,
    u: Seq<char>,
) -> bool
    decreases segs.len() - k, 0int,
{
    if k >= segs.len() {
        false
    } else if from >= l.len() {
        built_from_empty(n, segs, k + 1, u)
    } else {
        &&& n.literal_children@.len() == 1
        &&& n.parser_children@.len() == 0
        &&& n.pattern is None
        &&& n.literal_children@[0].literal@ == l.subrange(from, l.len() as int)
        &&& built_from_empty(*n.literal_children@[0].node, segs, k + 1, u)
    }
}

/// Where segment `k` found no edge to follow at the node where it starts,
/// the edge added for it leads to exactly the chain that the rest builds.
pub open spec fn new_branch(a: Node, b: Node, segs: Seq<NodeType>, k: int, u: Seq<char>) -> bool {
    k < segs.len() ==> match segs[k] {
        NodeType::Literal(l) => l@.len() > 0 && a.literal_child(l@[0]) < 0 ==> built_from_empty(
            *b.literal_children@[b.literal_child(l@[0])].node,
            segs,
            k + 1,
            u,
        ),
        NodeType::Parser(p) => a.parser_child(p) < 0 ==> built_from_empty(
            *b.parser_children@.last().node,
            segs,
            k + 1,
            u,
        ),
    }
}

/// `b` stores nothing that `a` does not, but `u`.
pub open spec fn stores_within(a: Node, b: Node, u: Seq<char>) -> bool {
    forall|v: Seq<char>| #[trigger] b.stores(v) ==> a.stores(v) || v == u
}

/// Replacing the node under literal edge `i` by one that stores nothing new
/// but `u` stores nothing new but `u`.
proof fn lemma_stores_literal_edge(a: Node, b: Node, i: int, u: Seq<char>)
    requires
        0 <= i < b.literal_children@.len(),
        b.parser_children == a.parser_children,
        b.pattern == a.pattern,
        forall|x: int|
            0 <= x < b.literal_children@.len() && x != i ==> exists|y: int|
                0 <= y < a.literal_children@.len() && #[trigger] b.literal_children@[x].node
                    == a.literal_children@[y].node,
        stores_within(a, *b.literal_children@[i].node, u),
    ensures
        stores_within(a, b, u),
{
    assert forall|v: Seq<char>| #[trigger] b.stores(v) implies a.stores(v) || v == u by {
        if exists|x: int|
            0 <= x < b.literal_children@.len() && (*#[trigger] b.literal_children@[x].node).stores(
                v,
            ) {
            let x = choose|x: int|
                0 <= x < b.literal_children@.len() && (*#[trigger] b.literal_children@[x].node).stores(
                    v,
                );
            if x != i {
                let y = choose|y: int|
                    0 <= y < a.literal_children@.len() && #[trigger] b.literal_children@[x].node
                        == a.literal_children@[y].node;
                assert((*a.literal_children@[y].node).stores(v));
            }
        } else if exists|x: int|
            0 <= x < b.parser_children@.len() && (*#[trigger] b.parser_children@[x].node).stores(v) {
            let x = choose|x: int|
                0 <= x < b.parser_children@.len() && (*#[trigger] b.parser_children@[x].node).stores(
                    v,
                );
            assert((*a.parser_children@[x].node).stores(v));
        }
    }
}

/// The parser-edge twin of `lemma_stores_literal_edge`.
proof fn lemma_stores_parser_edge(a: Node, b: Node, i: int, u: Seq<char>)
    requires
        0 <= i < b.parser_children@.len(),
        b.literal_children == a.literal_children,
        b.pattern == a.pattern,
        forall|x: int|
            0 <= x < b.parser_children@.len() && x != i ==> x < a.parser_children@.len()
                && #[trigger] b.parser_children@[x].node == a.parser_children@[x].node,
        stores_within(a, *b.parser_children@[i].node, u),
    ensures
        stores_within(a, b, u),
{
    assert forall|v: Seq<char>| #[trigger] b.stores(v) implies a.stores(v) || v == u by {
        if exists|x: int|
            0 <= x < b.literal_children@.len() && (*#[trigger] b.literal_children@[x].node).stores(
                v,
            ) {
            let x = choose|x: int|
                0 <= x < b.literal_children@.len() && (*#[trigger] b.literal_children@[x].node).stores(
                    v,
                );
            assert((*a.literal_children@[x].node).stores(v));
        } else if exists|x: int|
            0 <= x < b.parser_children@.len() && (*#[trigger] b.parser_children@[x].node).stores(v) {
            let x = choose|x: int|
                0 <= x < b.parser_children@.len() && (*#[trigger] b.parser_children@[x].node).stores(
                    v,
                );
            if x != i {
                assert((*a.parser_children@[x].node).stores(v));
            }
        }
    }
}

proof fn lemma_empty_stores_nothing(n: Node, v: Seq<char>)
    requires
        n.is_empty_node(),
    ensures
        !n.stores(v),
{
}

/// What stores nothing new but `u` under a child of `a` stores nothing new
/// but `u` in `a`.
proof fn lemma_stores_via_child(a: Node, c0: Node, c1: Node, u: Seq<char>)
    requires
        forall|v: Seq<char>| c0.stores(v) ==> a.stores(v),
        forall|v: Seq<char>| #[trigger] c1.stores(v) ==> c0.stores(v) || v == u,
    ensures
        stores_within(a, c1, u),
{
}

/// What inserting `segs` from segment `k` does along its whole walk: at
/// each node the step that `first_step` describes, then the same below the
/// edge it followed, or the fresh chain below an edge it added.
pub open spec fn walk_effect(a: Node, b: Node, segs: Seq<NodeType>, k: int, u: Seq<char>) -> bool
    decreases segs.len() - k, 2int, 0int,
{
    if k >= segs.len() {
        first_step(a, b, segs, k, u)
    } else {
        match segs[k] {
            NodeType::Literal(l) => literal_walk(a, b, segs, k, l@, 0, u),
            NodeType::Parser(p) => {
                let j = a.parser_child(p);
                &&& parser_step(a, b, p)
                &&& if j < 0 {
                    built_from_empty(*b.parser_children@.last().node, segs, k + 1, u)
                } else {
                    walk_effect(
                        *a.parser_children@[j].node,
                        *b.parser_children@[j].node,
                        segs,
                        k + 1,
                        u,
                    )
                }
            },
        }
    }
}

/// `walk_effect` for the literal `l` of segment `k`, from character `from`.
pub open spec fn literal_walk(
    a: Node,
    b: Node,
    segs: Seq<NodeType>,
    k: int,
    l: Seq<char>,
    from: int,
    u: Seq<char>,
) -> bool
    decreases segs.len() - k, 1int, l.len() - from,
{
    if k >= segs.len() {
        true
    } else if from >= l.len() {
        walk_effect(a, b, segs, k + 1, u)
    } else if !literal_step(a, b, l, from) {
        false
    } else {
        let j = a.literal_child(l[from]);
        if j < 0 {
            built_from_empty(
                *b.literal_children@[b.literal_child(l[from])].node,
                segs,
                k + 1,
                u,
            )
        } else {
            let n = b.literal_children@[j].literal@.len() as int;
            if n <= 0 || from + n > l.len() {
                false
            } else if n == a.literal_children@[j].literal@.len() {
                literal_walk(
                    *a.literal_children@[j].node,
                    *b.literal_children@[j].node,
                    segs,
                    k,
                    l,
                    from + n,
                    u,
                )
            } else {
                let m = *b.literal_children@[j].node;
                from + n < l.len() ==> built_from_empty(
                    *m.literal_children@[m.literal_child(l[from + n])].node,
                    segs,
                    k + 1,
                    u,
                )
            }
        }
    }
}

/// Every walk that ends at a pattern in `a` ends, in `b`, at the same pattern
/// or at `u`.
pub open spec fn keeps(a: Node, b: Node, u: Seq<char>) -> bool {
    forall|segs: Seq<NodeType>, k: int, from: int|
        #[trigger] a.find(segs, k, from) is Some ==> (b.find(segs, k, from) == a.find(segs, k, from)
            || b.find(segs, k, from) == Some(u))
}

/// A walk step that leaves the node: the end of the segments, a parser, or
/// a literal with characters left.
spec fn is_step(segs: Seq<NodeType>, k: int, from: int) -> bool {
    k >= segs.len() || !(segs[k] is Literal && from >= segs[k]->Literal_0@.len())
}

/// `keeps` for the walks that leave the node at once.
spec fn keeps_steps(a: Node, b: Node, u: Seq<char>) -> bool {
    forall|segs: Seq<NodeType>, k: int, from: int|
        is_step(segs, k, from) && #[trigger] a.find(segs, k, from) is Some ==> (b.find(segs, k, from)
            == a.find(segs, k, from) || b.find(segs, k, from) == Some(u))
}

proof fn lemma_keeps_walk(a: Node, b: Node, u: Seq<char>, segs: Seq<NodeType>, k: int, from: int)
    requires
        keeps_steps(a, b, u),
    ensures
        a.find(segs, k, from) is Some ==> (b.find(segs, k, from) == a.find(segs, k, from) || b.find(
            segs,
            k,
            from,
        ) == Some(u)),
    decreases segs.len() - k,
{
    if !is_step(segs, k, from) {
        lemma_keeps_walk(a, b, u, segs, k + 1, 0);
    } else if a.find(segs, k, from) is Some {
        assert(is_step(segs, k, from) && a.find(segs, k, from) is Some);
    }
}

proof fn lemma_keeps(a: Node, b: Node, u: Seq<char>)
    requires
        keeps_steps(a, b, u),
    ensures
        keeps(a, b, u),
{
    assert forall|segs: Seq<NodeType>, k: int, from: int|
        #[trigger] a.find(segs, k, from) is Some implies (b.find(segs, k, from) == a.find(
            segs,
            k,
            from,
        ) || b.find(segs, k, from) == Some(u)) by {
        lemma_keeps_walk(a, b, u, segs, k, from);
    }
}

/// Adding a literal edge for a character that had none keeps every walk.
proof fn lemma_keeps_new_edge(a: Node, b: Node, pos: int, u: Seq<char>)
    requires
        a.wf(),
        b.wf(),
        0 <= pos <= a.literal_children@.len(),
        b.literal_children@.len() == a.literal_children@.len() + 1,
        forall|j: int| 0 <= j < pos ==> b.literal_children@[j] == a.literal_children@[j],
        forall|j: int|
            pos <= j < a.literal_children@.len() ==> b.literal_children@[j + 1]
                == a.literal_children@[j],
        a.parser_children == b.parser_children,
        a.pattern == b.pattern,
    ensures
        keeps(a, b, u),
{
    assert forall|segs2: Seq<NodeType>, k2: int, from2: int|
        is_step(segs2, k2, from2) && #[trigger] a.find(segs2, k2, from2) is Some implies (b.find(
            segs2,
            k2,
            from2,
        ) == a.find(segs2, k2, from2) || b.find(segs2, k2, from2) == Some(u)) by {
        if k2 < segs2.len() {
            if segs2[k2] is Literal {
                let l2 = segs2[k2]->Literal_0@;
                let c = l2[from2];
                a.lemma_literal_child_found(c);
                let q = a.literal_child(c);
                let q2 = if q < pos {
                    q
                } else {
                    q + 1
                };
                assert(b.literal_children@[q2] == a.literal_children@[q]);
                b.lemma_literal_child_is(q2);
            } else {
                Node::lemma_same_parsers(a, b, segs2, k2, from2);
            }
        }
    }
    lemma_keeps(a, b, u);
}

/// Replacing the node under one literal edge by one that keeps every walk
/// keeps every walk.
proof fn lemma_keeps_new_child(a: Node, b: Node, i: int, c0: Node, c1: Node, u: Seq<char>)
    requires
        a.wf(),
        b.wf(),
        0 <= i < a.literal_children@.len(),
        b.literal_children@.len() == a.literal_children@.len(),
        forall|j: int|
            0 <= j < a.literal_children@.len() && j != i ==> b.literal_children@[j]
                == a.literal_children@[j],
        b.literal_children@[i].literal@ == a.literal_children@[i].literal@,
        *a.literal_children@[i].node == c0,
        *b.literal_children@[i].node == c1,
        keeps(c0, c1, u),
        a.parser_children == b.parser_children,
        a.pattern == b.pattern,
    ensures
        keeps(a, b, u),
{
    assert forall|segs2: Seq<NodeType>, k2: int, from2: int|
        is_step(segs2, k2, from2) && #[trigger] a.find(segs2, k2, from2) is Some implies (b.find(
            segs2,
            k2,
            from2,
        ) == a.find(segs2, k2, from2) || b.find(segs2, k2, from2) == Some(u)) by {
        if k2 < segs2.len() {
            if segs2[k2] is Literal {
                let l2 = segs2[k2]->Literal_0@;
                let c = l2[from2];
                a.lemma_literal_child_found(c);
                let q = a.literal_child(c);
                b.lemma_literal_child_is(q);
                if q == i {
                    let n = a.literal_children@[i].literal@.len();
                    assert(c0.find(segs2, k2, from2 + n) is Some);
                }
            } else {
                Node::lemma_same_parsers(a, b, segs2, k2, from2);
            }
        }
    }
    lemma_keeps(a, b, u);
}

/// Splitting a literal edge after `cp` characters, with the rest of the
/// label under a new middle node that keeps every walk, keeps every walk.
proof fn lemma_keeps_split(a: Node, b: Node, i: int, cp: int, m0: Node, m1: Node, u: Seq<char>)
    requires
        a.wf(),
        b.wf(),
        m0.wf(),
        0 <= i < a.literal_children@.len(),
        0 < cp < a.literal_children@[i].literal@.len(),
        b.literal_children@.len() == a.literal_children@.len(),
        forall|j: int|
            0 <= j < a.literal_children@.len() && j != i ==> b.literal_children@[j]
                == a.literal_children@[j],
        b.literal_children@[i].literal@ == a.literal_children@[i].literal@.subrange(0, cp),
        *b.literal_children@[i].node == m1,
        m0.literal_children@.len() == 1,
        m0.literal_children@[0].literal@ == a.literal_children@[i].literal@.subrange(
            cp,
            a.literal_children@[i].literal@.len() as int,
        ),
        m0.literal_children@[0].node == a.literal_children@[i].node,
        keeps(m0, m1, u),
        a.parser_children == b.parser_children,
        a.pattern == b.pattern,
    ensures
        keeps(a, b, u),
{
    let ll = a.literal_children@[i].literal@;
    assert forall|segs2: Seq<NodeType>, k2: int, from2: int|
        is_step(segs2, k2, from2) && #[trigger] a.find(segs2, k2, from2) is Some implies (b.find(
            segs2,
            k2,
            from2,
        ) == a.find(segs2, k2, from2) || b.find(segs2, k2, from2) == Some(u)) by {
        if k2 < segs2.len() {
            if segs2[k2] is Literal {
                let l2 = segs2[k2]->Literal_0@;
                let c = l2[from2];
                a.lemma_literal_child_found(c);
                let q = a.literal_child(c);
                assert(b.literal_children@[q].literal@[0] == a.literal_children@[q].literal@[0]);
                b.lemma_literal_child_is(q);
                if q == i {
                    assert(is_prefix_at(ll, l2, from2));
                    assert(l2.subrange(from2, from2 + cp) =~= ll.subrange(0, cp));
                    let sfx = ll.subrange(cp, ll.len() as int);
                    assert(l2.subrange(from2 + cp, from2 + cp + sfx.len()) =~= sfx);
                    assert(l2[from2 + cp] == ll[cp]);
                    assert(sfx[0] == ll[cp]);
                    m0.lemma_literal_child_is(0);
                    assert(m0.find(segs2, k2, from2 + cp) == a.find(segs2, k2, from2));
                }
            } else {
                Node::lemma_same_parsers(a, b, segs2, k2, from2);
            }
        }
    }
    lemma_keeps(a, b, u);
}

/// What a successful match gives: the uuid of the matched pattern and the
/// values that its parsers bound, in the order of the pattern.
pub struct MatchResult {
    pattern: String,
    values: Vec<(String, String)>,
}

impl View for MatchResult {
    type V = (Bindings, Seq<char>);

    closed spec fn view(&self) -> (Bindings, Seq<char>) {
        (bindings_view(self.values@), self.pattern@)
    }
}

impl MatchResult {
    pub fn pattern(&self) -> (r: &String)
        ensures
            r@ == self@.1,
    {
        &self.pattern
    }

    /// The (parser name, matched text) pairs.
    pub fn values(&self) -> (r: &Vec<(String, String)>)
        ensures
            bindings_view(r@) == self@.0,
    {
        &self.values
    }
}

/// The pattern trie: recognises which inserted pattern spells out an input
/// and extracts the values that the pattern's parsers match.
pub struct SuffixTable {
    pub root: Node,
}

impl SuffixTable {
    pub open spec fn wf(&self) -> bool {
        self.root.wf()
    }

    pub open spec fn spec_root(&self) -> Node {
        self.root
    }

    /// The match of `input` as the depth-first search with backtracking finds it.
    pub open spec fn spec_parse(&self, input: Seq<char>) -> Option<(Bindings, Seq<char>)> {
        self.root.match_from(input, 0, 0)
    }

    /// The uuid stored at the end of the walk that spells `segs`.
    pub open spec fn spec_find(&self, segs: Seq<NodeType>) -> Option<Seq<char>> {
        self.root.find(segs, 0, 0)
    }

    /// Parsing returns nothing but a stored pattern's uuid.
    pub proof fn lemma_parse_is_stored(&self, input: Seq<char>)
        ensures
            self.spec_parse(input) is Some ==> self.root.stores(self.spec_parse(input)->Some_0.1),
    {
        if self.spec_parse(input) is Some {
            self.root.lemma_match_is_stored(input, 0, 0);
        }
    }

    pub fn new() -> (r: SuffixTable)
        ensures
            r.wf(),
            forall|input: Seq<char>| r.spec_parse(input) is None,
            forall|segs: Seq<NodeType>| r.spec_find(segs) is None,
            r.root.is_empty_node(),
            forall|v: Seq<char>| !r.root.stores(v),
    {
        let r = SuffixTable { root: Node::new() };
        proof {
            assert forall|input: Seq<char>| r.spec_parse(input) is None by {
                assert(r.root.match_from(input, 0, 1) is None);
            }
            assert forall|segs: Seq<NodeType>| r.spec_find(segs) is None by {
                r.root.lemma_empty_find(segs, 0);
            }
            assert forall|v: Seq<char>| !r.root.stores(v) by {
                lemma_empty_stores_nothing(r.root, v);
            }
        }
        r
    }

    pub fn insert(&mut self, pattern: Pattern) -> (r: Result<InsertOutcome, InsertError>)
        requires
            old(self).wf(),
            pattern.spec_uuid().len() > 0,
        ensures
            final(self).wf(),
            r is Err <==> !valid_segments(pattern.spec_segments()),
            r is Err ==> r->Err_0 == InsertError::InvalidPattern && *final(self) == *old(self),
            r is Ok ==> final(self).spec_find(pattern.spec_segments()) == Some(pattern.spec_uuid()),
            r is Ok && old(self).spec_find(pattern.spec_segments()) is Some ==> r->Ok_0
                == InsertOutcome::Replaced,
            r is Ok && no_adjacent_literals(pattern.spec_segments()) && old(self).spec_find(
                pattern.spec_segments(),
            ) is None ==> r->Ok_0 == InsertOutcome::Inserted,
            r is Ok ==> forall|segs: Seq<NodeType>|
                #[trigger] old(self).spec_find(segs) is Some ==> final(self).spec_find(segs)
                    == old(self).spec_find(segs) || final(self).spec_find(segs) == Some(
                    pattern.spec_uuid(),
                ),
            r is Ok ==> first_step(
                old(self).root,
                final(self).root,
                pattern.spec_segments(),
                0,
                pattern.spec_uuid(),
            ),
            r is Ok ==> stores_within(old(self).root, final(self).root, pattern.spec_uuid()),
            r is Ok ==> walk_effect(
                old(self).root,
                final(self).root,
                pattern.spec_segments(),
                0,
                pattern.spec_uuid(),
            ),
            r is Ok ==> new_branch(
                old(self).root,
                final(self).root,
                pattern.spec_segments(),
                0,
                pattern.spec_uuid(),
            ),
            r is Ok && old(self).root.is_empty_node() ==> built_from_empty(
                final(self).root,
                pattern.spec_segments(),
                0,
                pattern.spec_uuid(),
            ),
    {
        let ghost u = pattern.spec_uuid();
        let r = self.root.insert(pattern);
        proof {
            if r is Ok {
                assert forall|segs: Seq<NodeType>|
                    #[trigger] old(self).spec_find(segs) is Some implies self.spec_find(segs)
                        == old(self).spec_find(segs) || self.spec_find(segs) == Some(u) by {
                    assert(old(self).root.find(segs, 0, 0) is Some);
                }
            }
        }
        r
    }

    /// Matches all of `input` against the inserted patterns: literal edges
    /// before parser edges, parser edges in the order they were added,
    /// backtracking out of branches that fail.
    pub fn parse(&self, input: &str) -> (r: Option<MatchResult>)
        requires
            self.wf(),
        ensures
            r.is_some() == self.spec_parse(input@).is_some(),
            r.is_some() ==> r.unwrap()@ == self.spec_parse(input@).unwrap(),
            r.is_some() ==> r.unwrap()@.1.len() > 0,
    {
        let chars = chars_of(input);
        match self.root.parse_from(&chars, 0) {
            Some((values, pattern)) => Some(MatchResult { pattern, values }),
            None => None,
        }
    }

    /// The literal edge at the root that shares the longest common prefix
    /// with `input`: as no two labels there share a first character, it is
    /// the one that starts with the first character of `input`, if any.
    pub fn longest_common_prefix(&self, input: &str) -> (r: Option<&LiteralNode>)
        requires
            self.wf(),
        ensures
            r.is_some() <==> input@.len() > 0 && self.spec_root().literal_child(input@[0]) >= 0,
            r.is_some() ==> *r.unwrap() == self.spec_root().literal_edge(
                self.spec_root().literal_child(input@[0]),
            ),
    {
        let chars = chars_of(input);
        if chars.len() == 0 {
            return None;
        }
        match self.root.find_literal(chars[0]) {
            Ok(i) => Some(&self.root.literal_children[i]),
            Err(_) => None,
        }
    }
}

} // verus!
