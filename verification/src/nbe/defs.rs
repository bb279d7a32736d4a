//! The definitional environment: named bodies in nested scopes, each with a
//! height and a transparency.
//!
//! A definition's **height** is one above the tallest definition its body
//! mentions, so a body can only mention what is shorter than itself and
//! conversion unfolds the taller side first. Scopes nest: a nested scope
//! shadows, and closing it releases exactly what it defined. The root scope
//! is never closed.

use vstd::prelude::*;

use crate::store::all_below;
use crate::store::comp_children;
use crate::store::ids1;
use crate::store::ids2;
use crate::store::ids3;
use crate::store::lemma_small_below;
use crate::store::BranchNode;
use crate::store::ClauseNode;
use crate::store::CompNode;
use crate::store::CompNodeId;
use crate::store::FieldNode;
use crate::store::FlatArena;
use crate::store::SyntaxNode;
use crate::store::StackNode;
use crate::store::StackNodeId;
use crate::store::ValueNode;
use crate::store::ValueNodeId;
use crate::syntax::names_equal;

verus! {

/// Whether a definition may unfold during speculative forcing.
#[derive(Clone, Copy, Debug, PartialEq, Eq, Structural)]
pub enum Transparency {
    /// Unfolds whenever conversion or readback asks.
    Reducible,
    /// Unfolds only when a caller forces it outright.
    Irreducible,
}

/// One named definition.
#[derive(Clone, Debug)]
pub struct Definition {
    /// The defined name.
    pub name: String,
    /// The body, as a node in the syntax store.
    pub body: ValueNodeId,
    /// One above the tallest definition the body mentions.
    pub height: u32,
    /// Whether speculative forcing may unfold it.
    pub transparency: Transparency,
}

impl Definition {
    /// The body's node.
    pub fn body(&self) -> (b: ValueNodeId)
        ensures
            b == self.body,
    {
        self.body
    }

    /// The definition's height.
    pub fn height(&self) -> (h: u32)
        ensures
            h == self.height,
    {
        self.height
    }

    /// The definition's transparency.
    pub fn transparency(&self) -> (t: Transparency)
        ensures
            t == self.transparency,
    {
        self.transparency
    }
}

/// The innermost definition of `name`: the newest entry carrying it.
pub open spec fn resolve(entries: Seq<Definition>, name: Seq<char>) -> Option<Definition>
    decreases entries.len(),
{
    if entries.len() == 0 {
        None
    } else if entries.last().name@ == name {
        Some(entries.last())
    } else {
        resolve(entries.drop_last(), name)
    }
}

/// The entries left after closing the innermost scope opened at `marks`.
pub open spec fn after_close(entries: Seq<Definition>, marks: Seq<usize>) -> Seq<Definition> {
    if marks.len() == 0 {
        entries
    } else if marks.last() < entries.len() {
        entries.subrange(0, marks.last() as int)
    } else {
        entries
    }
}

/// Closing a scope opened over `outer` releases exactly what was defined
/// inside it, whatever that was.
pub proof fn lemma_scope_releases(outer: Seq<Definition>, marks: Seq<usize>, inner: Seq<Definition>)
    requires
        outer.len() <= usize::MAX,
    ensures
        after_close(outer + inner, marks.push(outer.len() as usize)) == outer,
{
    let all = outer + inner;
    let pushed = marks.push(outer.len() as usize);
    assert(pushed.last() == outer.len());
    if inner.len() > 0 {
        assert(all.subrange(0, outer.len() as int) =~= outer);
    } else {
        assert(all =~= outer);
    }
}

/// The taller of two heights.
pub open spec fn taller_of(a: u32, b: u32) -> u32 {
    if a >= b {
        a
    } else {
        b
    }
}

/// The height a mention of `name` contributes under the binders `scope`:
/// nothing when a binder shadows it, else the height of its innermost
/// definition, or nothing when none carries it.
pub open spec fn name_height(entries: Seq<Definition>, scope: Seq<String>, name: Seq<char>) -> u32 {
    if exists|j: int| 0 <= j < scope.len() && (#[trigger] scope[j])@ == name {
        0
    } else {
        match resolve(entries, name) {
            Some(d) => d.height,
            None => 0,
        }
    }
}

/// The tallest definition value node `id` of `nodes` mentions free under the
/// binders `scope`; zero when it mentions none (or names no value node).
pub open spec fn value_tallest(entries: Seq<Definition>, nodes: Seq<SyntaxNode>, id: u32, scope: Seq<String>) -> u32
    decreases id, 3nat, 0nat,
{
    if id < nodes.len() {
        match nodes[id as int] {
            SyntaxNode::Value(v) => value_node_tallest(entries, nodes, v, id as int, scope),
            _ => 0,
        }
    } else {
        0
    }
}

/// The tallest definition computation node `id` mentions free under `scope`.
pub open spec fn comp_tallest(entries: Seq<Definition>, nodes: Seq<SyntaxNode>, id: u32, scope: Seq<String>) -> u32
    decreases id, 3nat, 0nat,
{
    if id < nodes.len() {
        match nodes[id as int] {
            SyntaxNode::Comp(c) => comp_node_tallest(entries, nodes, c, id as int, scope),
            _ => 0,
        }
    } else {
        0
    }
}

/// The tallest definition stack node `id` mentions free under `scope`.
pub open spec fn stack_tallest(entries: Seq<Definition>, nodes: Seq<SyntaxNode>, id: u32, scope: Seq<String>) -> u32
    decreases id, 3nat, 0nat,
{
    if id < nodes.len() {
        match nodes[id as int] {
            SyntaxNode::Stack(st) => stack_node_tallest(entries, nodes, st, id as int, scope),
            _ => 0,
        }
    } else {
        0
    }
}

/// [`value_tallest`] of a child handle, counted only below `bound`.
pub open spec fn value_below(entries: Seq<Definition>, nodes: Seq<SyntaxNode>, child: u32, bound: int, scope: Seq<String>) -> u32
    decreases bound, 1nat, 0nat,
{
    if child < bound {
        value_tallest(entries, nodes, child, scope)
    } else {
        0
    }
}

/// [`comp_tallest`] of a child handle, counted only below `bound`.
pub open spec fn comp_below(entries: Seq<Definition>, nodes: Seq<SyntaxNode>, child: u32, bound: int, scope: Seq<String>) -> u32
    decreases bound, 1nat, 0nat,
{
    if child < bound {
        comp_tallest(entries, nodes, child, scope)
    } else {
        0
    }
}

/// [`stack_tallest`] of a child handle, counted only below `bound`.
pub open spec fn stack_below(entries: Seq<Definition>, nodes: Seq<SyntaxNode>, child: u32, bound: int, scope: Seq<String>) -> u32
    decreases bound, 1nat, 0nat,
{
    if child < bound {
        stack_tallest(entries, nodes, child, scope)
    } else {
        0
    }
}

/// The tallest over a run of value handles, all counted below `parent`.
pub open spec fn values_tallest(entries: Seq<Definition>, nodes: Seq<SyntaxNode>, parent: int, ids: Seq<ValueNodeId>, scope: Seq<String>) -> u32
    decreases parent, 1nat, ids.len(),
{
    if ids.len() == 0 {
        0
    } else {
        taller_of(
            values_tallest(entries, nodes, parent, ids.drop_last(), scope),
            value_below(entries, nodes, ids.last().0, parent, scope),
        )
    }
}

/// The tallest over a record node's field values, all counted below
/// `parent`.
pub open spec fn fields_tallest(entries: Seq<Definition>, nodes: Seq<SyntaxNode>, parent: int, fields: Seq<FieldNode>, scope: Seq<String>) -> u32
    decreases parent, 1nat, fields.len(),
{
    if fields.len() == 0 {
        0
    } else {
        taller_of(
            fields_tallest(entries, nodes, parent, fields.drop_last(), scope),
            value_below(entries, nodes, fields.last().value.0, parent, scope),
        )
    }
}

/// The tallest over a run of arms, each body under its binder.
pub open spec fn arms_tallest(entries: Seq<Definition>, nodes: Seq<SyntaxNode>, parent: int, arms: Seq<BranchNode>, scope: Seq<String>) -> u32
    decreases parent, 1nat, arms.len(),
{
    if arms.len() == 0 {
        0
    } else {
        taller_of(
            arms_tallest(entries, nodes, parent, arms.drop_last(), scope),
            comp_below(entries, nodes, arms.last().body.0, parent, scope.push(arms.last().binder)),
        )
    }
}

/// The tallest over a run of operation clauses, each body under its payload
/// and resumption binders.
pub open spec fn clauses_tallest(entries: Seq<Definition>, nodes: Seq<SyntaxNode>, parent: int, ops: Seq<ClauseNode>, scope: Seq<String>) -> u32
    decreases parent, 1nat, ops.len(),
{
    if ops.len() == 0 {
        0
    } else {
        taller_of(
            clauses_tallest(entries, nodes, parent, ops.drop_last(), scope),
            comp_below(
                entries,
                nodes,
                ops.last().body.0,
                parent,
                scope.push(ops.last().payload).push(ops.last().resume),
            ),
        )
    }
}

/// [`value_tallest`] for the value node `v`, its children below `bound`.
pub open spec fn value_node_tallest(entries: Seq<Definition>, nodes: Seq<SyntaxNode>, v: ValueNode, bound: int, scope: Seq<String>) -> u32
    decreases bound, 2nat, 0nat,
{
    match v {
        ValueNode::Var(name) => name_height(entries, scope, name@),
        ValueNode::Pair(a, b) => taller_of(
            value_below(entries, nodes, a.0, bound, scope),
            value_below(entries, nodes, b.0, bound, scope),
        ),
        ValueNode::Inj(_, a) => value_below(entries, nodes, a.0, bound, scope),
        ValueNode::List(items) => values_tallest(entries, nodes, bound, items@, scope),
        ValueNode::Record(fields) => fields_tallest(entries, nodes, bound, fields@, scope),
        ValueNode::Thunk(_, body) => comp_below(entries, nodes, body.0, bound, scope),
        ValueNode::Annot(a, _) => value_below(entries, nodes, a.0, bound, scope),
        ValueNode::Stk(st) => stack_below(entries, nodes, st.0, bound, scope),
        ValueNode::Here(a) => value_below(entries, nodes, a.0, bound, scope),
        ValueNode::Ctor { payload, .. } => value_below(entries, nodes, payload.0, bound, scope),
        _ => 0,
    }
}

/// [`comp_tallest`] for the computation node `c`, its children below
/// `bound`; each binder scopes over the body it binds in.
pub open spec fn comp_node_tallest(entries: Seq<Definition>, nodes: Seq<SyntaxNode>, c: CompNode, bound: int, scope: Seq<String>) -> u32
    decreases bound, 2nat, 0nat,
{
    match c {
        CompNode::Abs(x, _, body) => comp_below(entries, nodes, body.0, bound, scope.push(x)),
        CompNode::App(f, a) => taller_of(
            comp_below(entries, nodes, f.0, bound, scope),
            value_below(entries, nodes, a.0, bound, scope),
        ),
        CompNode::Ret(v) => value_below(entries, nodes, v.0, bound, scope),
        CompNode::Bind(m, x, k) => taller_of(
            comp_below(entries, nodes, m.0, bound, scope),
            comp_below(entries, nodes, k.0, bound, scope.push(x)),
        ),
        CompNode::Force(v) => value_below(entries, nodes, v.0, bound, scope),
        CompNode::Case(v, l, r) => taller_of(
            value_below(entries, nodes, v.0, bound, scope),
            taller_of(
                comp_below(entries, nodes, l.body.0, bound, scope.push(l.binder)),
                comp_below(entries, nodes, r.body.0, bound, scope.push(r.binder)),
            ),
        ),
        CompNode::DataCase(v, arms) => taller_of(
            value_below(entries, nodes, v.0, bound, scope),
            arms_tallest(entries, nodes, bound, arms@, scope),
        ),
        CompNode::ListCase { scrut, nil, head, tail, cons } => taller_of(
            value_below(entries, nodes, scrut.0, bound, scope),
            taller_of(
                comp_below(entries, nodes, nil.0, bound, scope),
                comp_below(entries, nodes, cons.0, bound, scope.push(head).push(tail)),
            ),
        ),
        CompNode::Split { scrut, fst_name, snd_name, body, .. } => taller_of(
            value_below(entries, nodes, scrut.0, bound, scope),
            comp_below(entries, nodes, body.0, bound, scope.push(fst_name).push(snd_name)),
        ),
        CompNode::RecordProj { record, .. } => value_below(entries, nodes, record.0, bound, scope),
        CompNode::With(a, b) => taller_of(
            comp_below(entries, nodes, a.0, bound, scope),
            comp_below(entries, nodes, b.0, bound, scope),
        ),
        CompNode::Prj(_, m) => comp_below(entries, nodes, m.0, bound, scope),
        CompNode::Dup(v) => value_below(entries, nodes, v.0, bound, scope),
        CompNode::Drop(v) => value_below(entries, nodes, v.0, bound, scope),
        CompNode::Perform(_, _, v) => value_below(entries, nodes, v.0, bound, scope),
        CompNode::Handle { scrutinee, ret, ops, .. } => taller_of(
            taller_of(
                comp_below(entries, nodes, scrutinee.0, bound, scope),
                comp_below(entries, nodes, ret.body.0, bound, scope.push(ret.binder)),
            ),
            clauses_tallest(entries, nodes, bound, ops@, scope),
        ),
        CompNode::Resume(v, m) => taller_of(
            value_below(entries, nodes, v.0, bound, scope),
            comp_below(entries, nodes, m.0, bound, scope),
        ),
        CompNode::Reset(m) => comp_below(entries, nodes, m.0, bound, scope),
        CompNode::Shift(x, m) => comp_below(entries, nodes, m.0, bound, scope.push(x)),
        CompNode::Hole(_) => 0,
        CompNode::Native { args, .. } => values_tallest(entries, nodes, bound, args@, scope),
        CompNode::Walk { scrut, base, .. } => taller_of(
            value_below(entries, nodes, scrut.0, bound, scope),
            comp_below(entries, nodes, base.body.0, bound, scope.push(base.binder)),
        ),
    }
}

/// [`stack_tallest`] for the stack node `st`, its children below `bound`.
pub open spec fn stack_node_tallest(entries: Seq<Definition>, nodes: Seq<SyntaxNode>, st: StackNode, bound: int, scope: Seq<String>) -> u32
    decreases bound, 2nat, 0nat,
{
    match st {
        StackNode::Empty => 0,
        StackNode::Arg(v, rest) => taller_of(
            value_below(entries, nodes, v.0, bound, scope),
            stack_below(entries, nodes, rest.0, bound, scope),
        ),
        StackNode::Bind(x, m, rest) => taller_of(
            comp_below(entries, nodes, m.0, bound, scope.push(x)),
            stack_below(entries, nodes, rest.0, bound, scope),
        ),
        StackNode::Prj(_, rest) => stack_below(entries, nodes, rest.0, bound, scope),
    }
}

/// The height a definition of `body` takes: one above the tallest definition
/// the body mentions free, saturating at the top of the range.
pub open spec fn height_above(entries: Seq<Definition>, nodes: Seq<SyntaxNode>, body: ValueNodeId) -> u32 {
    let tallest = value_tallest(entries, nodes, body.0, Seq::empty());
    if tallest < u32::MAX {
        (tallest + 1) as u32
    } else {
        u32::MAX
    }
}

/// The definitional environment.
#[derive(Clone, Debug)]
pub struct Definitions {
    /// Every live definition, oldest first; inner scopes come later.
    entries: Vec<Definition>,
    /// Where each open nested scope began in `entries`.
    marks: Vec<usize>,
}

impl Definitions {
    /// The live definitions, oldest first.
    pub closed spec fn entries(self) -> Seq<Definition> {
        self.entries@
    }

    /// The start of each open nested scope.
    pub closed spec fn marks(self) -> Seq<usize> {
        self.marks@
    }

    /// An environment with only the root scope, defining nothing.
    pub fn new() -> (d: Definitions)
        ensures
            d.entries().len() == 0,
            d.marks().len() == 0,
    {
        Definitions { entries: Vec::new(), marks: Vec::new() }
    }

    /// How many scopes are open, the root included.
    pub fn depth(&self) -> (n: usize)
        requires
            self.marks().len() < usize::MAX,
        ensures
            n == self.marks().len() + 1,
    {
        self.marks.len() + 1
    }

    /// Opens a nested scope.
    pub fn open_scope(&mut self)
        ensures
            final(self).entries() == old(self).entries(),
            final(self).marks() == old(self).marks().push(old(self).entries().len() as usize),
    {
        let start = self.entries.len();
        self.marks.push(start);
    }

    /// Closes the innermost nested scope, releasing what it defined; the
    /// root scope is never closed.
    pub fn close_scope(&mut self)
        ensures
            final(self).entries() == after_close(old(self).entries(), old(self).marks()),
            old(self).marks().len() == 0 ==> final(self).marks() == old(self).marks(),
            old(self).marks().len() > 0 ==> final(self).marks() == old(self).marks().drop_last(),
    {
        match self.marks.pop() {
            Some(start) => {
                if start < self.entries.len() {
                    self.entries.truncate(start);
                }
            },
            None => {},
        }
    }

    /// The innermost definition of `name`, if any scope defines it.
    pub fn lookup(&self, name: &str) -> (r: Option<&Definition>)
        ensures
            match r {
                Some(d) => resolve(self.entries(), name@) == Some(*d),
                None => resolve(self.entries(), name@) is None,
            },
    {
        let mut index = self.entries.len();
        assert(self.entries@.subrange(0, index as int) =~= self.entries@);
        while index > 0
            invariant
                index <= self.entries@.len(),
                resolve(self.entries@.subrange(0, index as int), name@) == resolve(
                    self.entries@,
                    name@,
                ),
            decreases index,
        {
            let ghost prefix = self.entries@.subrange(0, index as int);
            let candidate = &self.entries[index - 1];
            if names_equal(candidate.name.as_str(), name) {
                assert(prefix.last() == *candidate);
                return Some(candidate);
            }
            assert(prefix.drop_last() =~= self.entries@.subrange(0, index - 1));
            index = index - 1;
        }
        assert(self.entries@.subrange(0, 0) =~= Seq::<Definition>::empty());
        None
    }

    /// Defines `name` as `body` in the innermost scope, at the height the
    /// body's mentions give it.
    pub fn define_with(
        &mut self,
        syntax: &FlatArena,
        name: &str,
        body: ValueNodeId,
        transparency: Transparency,
    )
        requires
            syntax.wf(),
        ensures
            final(self).marks() == old(self).marks(),
            final(self).entries().len() == old(self).entries().len() + 1,
            final(self).entries().drop_last() == old(self).entries(),
            final(self).entries().last().name@ == name@,
            final(self).entries().last().body == body,
            final(self).entries().last().transparency == transparency,
            final(self).entries().last().height == height_above(old(self).entries(), syntax.nodes(), body),
            final(self).entries().last().height >= 1,
            resolve(final(self).entries(), name@) == Some(final(self).entries().last()),
    {
        let tallest = self.mentioned_height(syntax, body);
        let height = if tallest < u32::MAX {
            tallest + 1
        } else {
            u32::MAX
        };
        let ghost before = self.entries@;
        self.entries.push(
            Definition { name: name.to_owned(), body, height, transparency },
        );
        proof {
            assert(self.entries@.drop_last() =~= before);
        }
    }

    /// The height of the tallest definition `body` mentions free, or zero
    /// when it mentions none.
    pub fn mentioned_height(&self, syntax: &FlatArena, body: ValueNodeId) -> (h: u32)
        requires
            syntax.wf(),
        ensures
            h == value_tallest(self.entries(), syntax.nodes(), body.0, Seq::empty()),
    {
        let mut scope: Vec<String> = Vec::new();
        self.value_height(syntax, body, &mut scope)
    }

    /// Whether `name` is bound by one of the enclosing binders in `scope`.
    fn bound_in(scope: &Vec<String>, name: &str) -> (b: bool)
        ensures
            b == exists|j: int| 0 <= j < scope@.len() && (#[trigger] scope@[j])@ == name@,
    {
        let mut index: usize = 0;
        while index < scope.len()
            invariant
                index <= scope@.len(),
                forall|j: int| 0 <= j < index ==> (#[trigger] scope@[j])@ != name@,
            decreases scope@.len() - index,
        {
            if names_equal(scope[index].as_str(), name) {
                return true;
            }
            index = index + 1;
        }
        false
    }

    /// The taller of two heights.
    fn taller(a: u32, b: u32) -> (h: u32)
        ensures
            h == taller_of(a, b),
    {
        if a >= b {
            a
        } else {
            b
        }
    }

    /// The tallest definition a value node mentions free under `scope`.
    fn value_height(&self, syntax: &FlatArena, id: ValueNodeId, scope: &mut Vec<String>) -> (h:
        u32)
        requires
            syntax.wf(),
        ensures
            h == value_tallest(self.entries(), syntax.nodes(), id.0, old(scope)@),
            final(scope)@ == old(scope)@,
        decreases id.0, 1nat,
    {
        let node = match syntax.value_node(id) {
            Ok(node) => node,
            Err(_) => {
                return 0;
            },
        };
        proof {
            syntax.lemma_value_children_below(id, *node);
            lemma_small_below();
        }
        let ghost entries = self.entries();
        let ghost nodes = syntax.nodes();
        let ghost names = scope@;
        match node {
            ValueNode::Var(name) => {
                if Self::bound_in(scope, name.as_str()) {
                    0
                } else {
                    match self.lookup(name.as_str()) {
                        Some(definition) => definition.height,
                        None => 0,
                    }
                }
            },
            ValueNode::Pair(fst, snd) => {
                let a = self.value_height(syntax, *fst, scope);
                let b = self.value_height(syntax, *snd, scope);
                Self::taller(a, b)
            },
            ValueNode::Inj(_, payload) => self.value_height(syntax, *payload, scope),
            ValueNode::List(items) => {
                let ghost mapped = items@.map_values(|i: ValueNodeId| i.0);
                let mut tallest: u32 = 0;
                let mut index: usize = 0;
                proof {
                    assert(items@.take(0) =~= Seq::<ValueNodeId>::empty());
                }
                while index < items.len()
                    invariant
                        index <= items@.len(),
                        syntax.wf(),
                        nodes == syntax.nodes(),
                        entries == self.entries(),
                        scope@ == names,
                        mapped == items@.map_values(|i: ValueNodeId| i.0),
                        all_below(mapped, id.0 as int),
                        tallest == values_tallest(entries, nodes, id.0 as int, items@.take(index as int), names),
                    decreases items@.len() - index,
                {
                    assert(mapped[index as int] == items@[index as int].0);
                    let h = self.value_height(syntax, items[index], scope);
                    proof {
                        let taken = items@.take(index + 1);
                        assert(taken.drop_last() =~= items@.take(index as int));
                        assert(taken.last() == items@[index as int]);
                        assert(items@[index as int].0 < id.0);
                        assert(value_below(entries, nodes, items@[index as int].0, id.0 as int, names) == h);
                        assert(values_tallest(entries, nodes, id.0 as int, taken, names) == taller_of(tallest, h));
                    }
                    tallest = Self::taller(tallest, h);
                    index = index + 1;
                }
                proof {
                    assert(items@.take(items@.len() as int) =~= items@);
                }
                tallest
            },
            ValueNode::Record(fields) => {
                let ghost mapped = fields@.map_values(|f: FieldNode| f.value.0);
                let mut tallest: u32 = 0;
                let mut index: usize = 0;
                proof {
                    assert(fields@.take(0) =~= Seq::<FieldNode>::empty());
                }
                while index < fields.len()
                    invariant
                        index <= fields@.len(),
                        syntax.wf(),
                        nodes == syntax.nodes(),
                        entries == self.entries(),
                        scope@ == names,
                        mapped == fields@.map_values(|f: FieldNode| f.value.0),
                        all_below(mapped, id.0 as int),
                        tallest == fields_tallest(entries, nodes, id.0 as int, fields@.take(index as int), names),
                    decreases fields@.len() - index,
                {
                    assert(mapped[index as int] == fields@[index as int].value.0);
                    let h = self.value_height(syntax, fields[index].value, scope);
                    proof {
                        let taken = fields@.take(index + 1);
                        assert(taken.drop_last() =~= fields@.take(index as int));
                        assert(taken.last() == fields@[index as int]);
                        assert(fields@[index as int].value.0 < id.0);
                        assert(value_below(entries, nodes, fields@[index as int].value.0, id.0 as int, names) == h);
                        assert(fields_tallest(entries, nodes, id.0 as int, taken, names) == taller_of(tallest, h));
                    }
                    tallest = Self::taller(tallest, h);
                    index = index + 1;
                }
                proof {
                    assert(fields@.take(fields@.len() as int) =~= fields@);
                }
                tallest
            },
            ValueNode::Thunk(_, body) => self.comp_height(syntax, *body, scope),
            ValueNode::Annot(inner, _) => self.value_height(syntax, *inner, scope),
            ValueNode::Stk(stack) => self.stack_height(syntax, *stack, scope),
            ValueNode::Here(witness) => self.value_height(syntax, *witness, scope),
            ValueNode::Ctor { payload, .. } => self.value_height(syntax, *payload, scope),
            _ => 0,
        }
    }

    /// The tallest definition a body mentions free with `binder` bound
    /// around it.
    fn under_one(
        &self,
        syntax: &FlatArena,
        binder: &String,
        body: CompNodeId,
        scope: &mut Vec<String>,
        bound: Ghost<u32>,
    ) -> (h: u32)
        requires
            syntax.wf(),
            body.0 < bound@,
        ensures
            h == comp_tallest(self.entries(), syntax.nodes(), body.0, old(scope)@.push(*binder)),
            final(scope)@ == old(scope)@,
        decreases bound@, 0nat,
    {
        scope.push(binder.clone());
        let h = self.comp_height(syntax, body, scope);
        scope.pop();
        h
    }

    /// The tallest definition a body mentions free with `first` and then
    /// `second` bound around it.
    fn under_two(
        &self,
        syntax: &FlatArena,
        first: &String,
        second: &String,
        body: CompNodeId,
        scope: &mut Vec<String>,
        bound: Ghost<u32>,
    ) -> (h: u32)
        requires
            syntax.wf(),
            body.0 < bound@,
        ensures
            h == comp_tallest(
                self.entries(),
                syntax.nodes(),
                body.0,
                old(scope)@.push(*first).push(*second),
            ),
            final(scope)@ == old(scope)@,
        decreases bound@, 0nat,
    {
        scope.push(first.clone());
        scope.push(second.clone());
        let h = self.comp_height(syntax, body, scope);
        scope.pop();
        scope.pop();
        h
    }

    /// The tallest definition a computation node mentions free under
    /// `scope`.
    fn comp_height(&self, syntax: &FlatArena, id: CompNodeId, scope: &mut Vec<String>) -> (h: u32)
        requires
            syntax.wf(),
        ensures
            h == comp_tallest(self.entries(), syntax.nodes(), id.0, old(scope)@),
            final(scope)@ == old(scope)@,
        decreases id.0, 1nat,
    {
        let node = match syntax.comp_node(id) {
            Ok(node) => node,
            Err(_) => {
                return 0;
            },
        };
        proof {
            syntax.lemma_comp_children_below(id, *node);
            lemma_small_below();
        }
        let ghost entries = self.entries();
        let ghost nodes = syntax.nodes();
        let ghost names = scope@;
        match node {
            CompNode::Abs(binder, _, body) => self.under_one(syntax, binder, *body, scope, Ghost(id.0)),
            CompNode::App(head, arg) => {
                let a = self.comp_height(syntax, *head, scope);
                let b = self.value_height(syntax, *arg, scope);
                Self::taller(a, b)
            },
            CompNode::Ret(value) => self.value_height(syntax, *value, scope),
            CompNode::Bind(bound, binder, cont) => {
                let a = self.comp_height(syntax, *bound, scope);
                let b = self.under_one(syntax, binder, *cont, scope, Ghost(id.0));
                Self::taller(a, b)
            },
            CompNode::Force(value) => self.value_height(syntax, *value, scope),
            CompNode::Case(scrut, left, right) => {
                let ghost all = comp_children(*node);
                assert(all == ids3(scrut.0, left.body.0, right.body.0));
                let a = self.value_height(syntax, *scrut, scope);
                let b = self.under_one(syntax, &left.binder, left.body, scope, Ghost(id.0));
                let c = self.under_one(syntax, &right.binder, right.body, scope, Ghost(id.0));
                Self::taller(a, Self::taller(b, c))
            },
            CompNode::DataCase(scrut, arms) => {
                let ghost all = comp_children(*node);
                let ghost mapped = arms@.map_values(|a: BranchNode| a.body.0);
                assert(all == ids1(scrut.0) + mapped);
                assert(all[0] == scrut.0);
                let first = self.value_height(syntax, *scrut, scope);
                let mut tallest: u32 = 0;
                let mut index: usize = 0;
                proof {
                    assert(arms@.take(0) =~= Seq::<BranchNode>::empty());
                }
                while index < arms.len()
                    invariant
                        index <= arms@.len(),
                        syntax.wf(),
                        nodes == syntax.nodes(),
                        entries == self.entries(),
                        scope@ == names,
                        mapped == arms@.map_values(|a: BranchNode| a.body.0),
                        all == ids1(all[0]) + mapped,
                        all_below(all, id.0 as int),
                        tallest == arms_tallest(entries, nodes, id.0 as int, arms@.take(index as int), names),
                    decreases arms@.len() - index,
                {
                    assert(all[index + 1] == mapped[index as int]);
                    let arm = &arms[index];
                    let h = self.under_one(syntax, &arm.binder, arm.body, scope, Ghost(id.0));
                    proof {
                        let taken = arms@.take(index + 1);
                        assert(taken.drop_last() =~= arms@.take(index as int));
                        assert(taken.last() == arms@[index as int]);
                        assert(arms@[index as int].body.0 < id.0);
                        assert(comp_below(entries, nodes, arms@[index as int].body.0, id.0 as int, names.push(arms@[index as int].binder)) == h);
                        assert(arms_tallest(entries, nodes, id.0 as int, taken, names) == taller_of(tallest, h));
                    }
                    tallest = Self::taller(tallest, h);
                    index = index + 1;
                }
                proof {
                    assert(arms@.take(arms@.len() as int) =~= arms@);
                }
                Self::taller(first, tallest)
            },
            CompNode::ListCase { scrut, nil, head, tail, cons } => {
                let a = self.value_height(syntax, *scrut, scope);
                let b = self.comp_height(syntax, *nil, scope);
                let c = self.under_two(syntax, head, tail, *cons, scope, Ghost(id.0));
                Self::taller(a, Self::taller(b, c))
            },
            CompNode::Split { scrut, fst_name, snd_name, body, .. } => {
                let a = self.value_height(syntax, *scrut, scope);
                let b = self.under_two(syntax, fst_name, snd_name, *body, scope, Ghost(id.0));
                Self::taller(a, b)
            },
            CompNode::RecordProj { record, .. } => self.value_height(syntax, *record, scope),
            CompNode::With(fst, snd) => {
                let a = self.comp_height(syntax, *fst, scope);
                let b = self.comp_height(syntax, *snd, scope);
                Self::taller(a, b)
            },
            CompNode::Prj(_, body) => self.comp_height(syntax, *body, scope),
            CompNode::Dup(value) => self.value_height(syntax, *value, scope),
            CompNode::Drop(value) => self.value_height(syntax, *value, scope),
            CompNode::Perform(_, _, payload) => self.value_height(syntax, *payload, scope),
            CompNode::Handle { scrutinee, ret, ops, .. } => {
                let ghost all = comp_children(*node);
                let ghost mapped = ops@.map_values(|c: ClauseNode| c.body.0);
                assert(all == ids2(scrutinee.0, ret.body.0) + mapped);
                assert(all[0] == scrutinee.0 && all[1] == ret.body.0);
                let a = self.comp_height(syntax, *scrutinee, scope);
                let b = self.under_one(syntax, &ret.binder, ret.body, scope, Ghost(id.0));
                let first = Self::taller(a, b);
                let mut tallest: u32 = 0;
                let mut index: usize = 0;
                proof {
                    assert(ops@.take(0) =~= Seq::<ClauseNode>::empty());
                }
                while index < ops.len()
                    invariant
                        index <= ops@.len(),
                        syntax.wf(),
                        nodes == syntax.nodes(),
                        entries == self.entries(),
                        scope@ == names,
                        mapped == ops@.map_values(|c: ClauseNode| c.body.0),
                        all == ids2(all[0], all[1]) + mapped,
                        all_below(all, id.0 as int),
                        tallest == clauses_tallest(entries, nodes, id.0 as int, ops@.take(index as int), names),
                    decreases ops@.len() - index,
                {
                    assert(all[index + 2] == mapped[index as int]);
                    let clause = &ops[index];
                    let h = self.under_two(
                        syntax,
                        &clause.payload,
                        &clause.resume,
                        clause.body,
                        scope,
                        Ghost(id.0),
                    );
                    proof {
                        let taken = ops@.take(index + 1);
                        assert(taken.drop_last() =~= ops@.take(index as int));
                        assert(taken.last() == ops@[index as int]);
                        assert(ops@[index as int].body.0 < id.0);
                        assert(comp_below(entries, nodes, ops@[index as int].body.0, id.0 as int, names.push(ops@[index as int].payload).push(ops@[index as int].resume)) == h);
                        assert(clauses_tallest(entries, nodes, id.0 as int, taken, names) == taller_of(tallest, h));
                    }
                    tallest = Self::taller(tallest, h);
                    index = index + 1;
                }
                proof {
                    assert(ops@.take(ops@.len() as int) =~= ops@);
                }
                Self::taller(first, tallest)
            },
            CompNode::Resume(value, body) => {
                let a = self.value_height(syntax, *value, scope);
                let b = self.comp_height(syntax, *body, scope);
                Self::taller(a, b)
            },
            CompNode::Reset(body) => self.comp_height(syntax, *body, scope),
            CompNode::Shift(binder, body) => self.under_one(syntax, binder, *body, scope, Ghost(id.0)),
            CompNode::Hole(_) => 0,
            CompNode::Native { args, .. } => {
                let ghost mapped = args@.map_values(|a: ValueNodeId| a.0);
                let mut tallest: u32 = 0;
                let mut index: usize = 0;
                proof {
                    assert(args@.take(0) =~= Seq::<ValueNodeId>::empty());
                }
                while index < args.len()
                    invariant
                        index <= args@.len(),
                        syntax.wf(),
                        nodes == syntax.nodes(),
                        entries == self.entries(),
                        scope@ == names,
                        mapped == args@.map_values(|a: ValueNodeId| a.0),
                        all_below(mapped, id.0 as int),
                        tallest == values_tallest(entries, nodes, id.0 as int, args@.take(index as int), names),
                    decreases args@.len() - index,
                {
                    assert(mapped[index as int] == args@[index as int].0);
                    let h = self.value_height(syntax, args[index], scope);
                    proof {
                        let taken = args@.take(index + 1);
                        assert(taken.drop_last() =~= args@.take(index as int));
                        assert(taken.last() == args@[index as int]);
                        assert(args@[index as int].0 < id.0);
                        assert(value_below(entries, nodes, args@[index as int].0, id.0 as int, names) == h);
                        assert(values_tallest(entries, nodes, id.0 as int, taken, names) == taller_of(tallest, h));
                    }
                    tallest = Self::taller(tallest, h);
                    index = index + 1;
                }
                proof {
                    assert(args@.take(args@.len() as int) =~= args@);
                }
                tallest
            },
            CompNode::Walk { scrut, base, .. } => {
                let a = self.value_height(syntax, *scrut, scope);
                let b = self.under_one(syntax, &base.binder, base.body, scope, Ghost(id.0));
                Self::taller(a, b)
            },
        }
    }

    /// The tallest definition a stack node mentions free under `scope`.
    fn stack_height(&self, syntax: &FlatArena, id: StackNodeId, scope: &mut Vec<String>) -> (h:
        u32)
        requires
            syntax.wf(),
        ensures
            h == stack_tallest(self.entries(), syntax.nodes(), id.0, old(scope)@),
            final(scope)@ == old(scope)@,
        decreases id.0, 1nat,
    {
        let node = match syntax.stack_node(id) {
            Ok(node) => node,
            Err(_) => {
                return 0;
            },
        };
        proof {
            syntax.lemma_stack_children_below(id, *node);
            lemma_small_below();
        }
        match node {
            StackNode::Empty => 0,
            StackNode::Arg(arg, rest) => {
                let a = self.value_height(syntax, *arg, scope);
                let b = self.stack_height(syntax, *rest, scope);
                Self::taller(a, b)
            },
            StackNode::Bind(binder, body, rest) => {
                let a = self.under_one(syntax, binder, *body, scope, Ghost(id.0));
                let b = self.stack_height(syntax, *rest, scope);
                Self::taller(a, b)
            },
            StackNode::Prj(_, rest) => self.stack_height(syntax, *rest, scope),
        }
    }
}

} // verus!
