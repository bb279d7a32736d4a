//! **Normalization by evaluation**: the checker's conversion engine.
//!
//! Terms are lowered into a flat syntax store, evaluated into a semantic
//! arena, compared there, and read back into syntax when a term is wanted.
//!
//! | module     | what it owns                                                  |
//! | ---------- | ------------------------------------------------------------- |
//! | [`sem`]    | the semantic value domain, its per-run arena, the guard word  |
//! | [`defs`]   | the scoped definitional environment, heights, transparency    |
//! | [`eval`]   | evaluation and the three force modes                          |
//! | [`quote`]  | readback and its three modes                                  |
//! | [`conv`]   | the definitional-equality pipeline                            |
//! | [`intern`] | the per-face syntax interner                                  |
//!
//! Conversion never runs an effect, a handler, or a control operator: those
//! formers evaluate to neutrals with their operands evaluated, so the equality
//! offered on them is congruence and nothing stronger.

pub mod conv;
pub mod defs;
pub mod eval;
pub mod intern;
pub mod quote;
pub mod sem;

use std::rc::Rc;
use vstd::prelude::*;

use crate::nbe::defs::height_above;
use crate::nbe::defs::Definitions;
use crate::nbe::defs::Transparency;
use crate::nbe::intern::Face;
use crate::nbe::intern::find_key;
use crate::nbe::intern::lemma_find_key;
use crate::nbe::intern::CanonicalToken;
use crate::nbe::intern::intern_step;
use crate::nbe::intern::lemma_value_tokens_agree;
use crate::nbe::intern::term_tokens;
use crate::nbe::intern::word;
use crate::nbe::intern::SyntaxInterner;
use crate::nbe::intern::TAG_MISSING;
use crate::nbe::quote::inert_term;
use crate::nbe::quote::lemma_inert_term_node;
use crate::nbe::quote::lemma_quote_after_eval_inert;
use crate::nbe::quote::value_inert;
use crate::nbe::quote::quoted_value;
use crate::nbe::quote::QuoteMode;
use crate::nbe::eval::evaluated_value;
use crate::nbe::sem::EnvId;
use crate::nbe::sem::SemValueId;
use crate::nbe::sem::grows;
use crate::nbe::sem::min_len;
use crate::nbe::sem::SemArena;
use crate::nbe::sem::SemError;
use crate::nbe::sem::Watermark;
use crate::store::spelling::extends;
use crate::store::spelling::lemma_value_spelling_kept;
use crate::store::spelling::pointee;
use crate::store::spelling::spells_value;
use crate::store::FlatArena;
use crate::store::SyntaxNode;
use crate::store::NESTING_LIMIT;
use crate::store::leaf_value;
use crate::store::value_fits;
use crate::store::inert_value;
use crate::store::value_size;
use crate::store::plain_value;
use crate::nbe::eval::has_room;
use crate::nbe::eval::plain_literal_at;
use crate::nbe::eval::literal_form;
use crate::nbe::eval::inert_cost;
use crate::nbe::eval::EVAL_DEPTH;
use crate::nbe::conv::CONV_DEPTH;
use crate::nbe::conv::terms_agree;
use crate::nbe::conv::shallow_verdict;
use crate::nbe::sem::Rigid;
use crate::nbe::sem::SemValueNode;
use crate::nbe::sem::ValueUnfold;
use crate::store::ValueNodeId;
use crate::syntax::Value;
use crate::types::ValueType;

verus! {

/// The default number of definition unfoldings one force may spend.
pub const DEFAULT_FUEL: u32 = 4096;

/// The normalizer: one semantic arena, one definitional environment, one
/// syntax store, one per-face interner, and the fresh-level counter readback
/// draws from.
#[derive(Clone, Debug)]
pub struct Normalizer {
    /// The per-run semantic arena.
    pub arena: SemArena,
    /// The scoped definitional environment.
    pub defs: Definitions,
    /// The syntax store every handle names.
    pub syntax: FlatArena,
    /// The per-face syntax interner.
    pub interner: SyntaxInterner,
    /// The next de Bruijn level readback and conversion will generate.
    pub next_level: u32,
    /// The unfolding budget one force may spend.
    pub fuel: u32,
}

/// What every engine step keeps: the normalizer stays well formed, the
/// arena only grows, and the definitions, interner, and fuel are untouched.
pub open spec fn keeps_context(before: Normalizer, after: Normalizer) -> bool {
    &&& after.wf()
    &&& grows(before.arena, after.arena)
    &&& after.defs == before.defs
    &&& after.interner == before.interner
    &&& after.fuel == before.fuel
}

/// An evaluation step: it keeps the context and leaves the syntax store
/// exactly as it was.
pub open spec fn evaluates(before: Normalizer, after: Normalizer) -> bool {
    &&& keeps_context(before, after)
    &&& after.syntax == before.syntax
}

/// A readback step: it keeps the context and only appends to the syntax
/// store, every earlier node staying in place.
pub open spec fn reads_back(before: Normalizer, after: Normalizer) -> bool {
    &&& keeps_context(before, after)
    &&& extends(after.syntax.nodes(), before.syntax.nodes())
}

/// Neither face of the interner holds a representative yet.
pub open spec fn fresh_tables(interner: SyntaxInterner) -> bool {
    &&& interner.table(Face::ElaborationInput).len() == 0
    &&& interner.table(Face::ReadbackNormalForm).len() == 0
}

/// The input face holds no representative under `term`'s canonical key.
pub open spec fn unseen_input(interner: SyntaxInterner, term: Value) -> bool {
    find_key(interner.table(Face::ElaborationInput), term_tokens(term)) is None
}

/// Two arenas hold the same number of nodes in every family.
pub open spec fn same_population(a: SemArena, b: SemArena) -> bool {
    &&& a.value_nodes().len() == b.value_nodes().len()
    &&& a.comp_nodes().len() == b.comp_nodes().len()
    &&& a.closure_nodes().len() == b.closure_nodes().len()
    &&& a.frames().len() == b.frames().len()
    &&& a.neutral_nodes().len() == b.neutral_nodes().len()
}

/// The population an arena had when `mark` was taken.
pub open spec fn at_mark(a: SemArena, mark: Watermark) -> bool {
    &&& a.value_nodes().len() == mark.values
    &&& a.comp_nodes().len() == mark.comps
    &&& a.closure_nodes().len() == mark.closures
    &&& a.frames().len() == mark.envs
    &&& a.neutral_nodes().len() == mark.neutrals
}

/// An interned entry's node spells a term whose canonical token stream is
/// the entry's key.
pub open spec fn keyed_spelling(nodes: Seq<SyntaxNode>, key: Seq<CanonicalToken>, node: ValueNodeId) -> bool {
    exists|t: Value| #[trigger] spells_value(nodes, node.0, t) && key == term_tokens(t)
}

/// Every representative of either face, unless interned under the
/// missing-node key, spells a term carrying its key.
pub open spec fn interner_sound(interner: SyntaxInterner, nodes: Seq<SyntaxNode>) -> bool {
    forall|face: Face, i: int|
        0 <= i < interner.table(face).len() && interner.table(face)[i].0 != word(TAG_MISSING)
            ==> #[trigger] keyed_spelling(nodes, interner.table(face)[i].0, interner.table(face)[i].1)
}

/// No term's token stream is the missing-node key.
pub proof fn lemma_term_tokens_not_missing(t: Value)
    ensures
        term_tokens(t) != word(TAG_MISSING),
{
    let tokens = term_tokens(t);
    assert(tokens.len() > 0);
    assert(tokens[0] != CanonicalToken(TAG_MISSING));
    assert(word(TAG_MISSING)[0] == CanonicalToken(TAG_MISSING));
}

/// Soundness survives appending to the store: a term an entry's node
/// spelled, it still spells.
pub proof fn lemma_interner_sound_extends(
    interner: SyntaxInterner,
    nodes: Seq<SyntaxNode>,
    more: Seq<SyntaxNode>,
)
    requires
        interner_sound(interner, nodes),
        extends(more, nodes),
    ensures
        interner_sound(interner, more),
{
    assert forall|face: Face, i: int|
        0 <= i < interner.table(face).len() && interner.table(face)[i].0 != word(
            TAG_MISSING,
        ) implies #[trigger] keyed_spelling(more, interner.table(face)[i].0, interner.table(face)[i].1) by {
        let entry = interner.table(face)[i];
        assert(keyed_spelling(nodes, entry.0, entry.1));
        let t = choose|t: Value| #[trigger] spells_value(nodes, entry.1.0, t) && entry.0 == term_tokens(t);
        lemma_value_spelling_kept(nodes, more, entry.1.0, t);
    }
}

/// Soundness survives an interning step under the key the node's canonical
/// key gives, and the representative handed back spells a term with that
/// key whenever the node does.
pub proof fn lemma_interner_sound_intern(
    before: SyntaxInterner,
    after: SyntaxInterner,
    nodes: Seq<SyntaxNode>,
    face: Face,
    node: ValueNodeId,
    r: ValueNodeId,
)
    requires
        interner_sound(before, nodes),
        forall|t: Value| #[trigger]
            spells_value(nodes, node.0, t) ==> (after.table(face), r) == intern_step(
                before.table(face),
                term_tokens(t),
                node,
            ),
        !(exists|t: Value| spells_value(nodes, node.0, t)) ==> (after.table(face), r)
            == intern_step(before.table(face), word(TAG_MISSING), node),
        forall|other: Face| other != face ==> after.table(other) == before.table(other),
    ensures
        interner_sound(after, nodes),
        forall|t: Value| #[trigger]
            spells_value(nodes, node.0, t) ==> keyed_spelling(nodes, term_tokens(t), r),
{
    let table = before.table(face);
    if exists|t: Value| spells_value(nodes, node.0, t) {
        let t = choose|t: Value| spells_value(nodes, node.0, t);
        let key = term_tokens(t);
        lemma_find_key(table, key);
        lemma_term_tokens_not_missing(t);
        assert((after.table(face), r) == intern_step(table, key, node));
        if find_key(table, key) is None {
            assert(after.table(face) == table.push((key, node)));
        } else {
            assert(after.table(face) == table);
        }
        assert forall|g: Face, i: int|
            0 <= i < after.table(g).len() && after.table(g)[i].0 != word(TAG_MISSING) implies
            #[trigger] keyed_spelling(nodes, after.table(g)[i].0, after.table(g)[i].1) by {
            if g == face && i == table.len() {
                assert(after.table(g)[i] == (key, node));
                assert(spells_value(nodes, node.0, t) && key == term_tokens(t));
                assert(keyed_spelling(nodes, key, node));
            } else if g == face {
                assert(after.table(g)[i] == table[i]);
                assert(keyed_spelling(nodes, before.table(g)[i].0, before.table(g)[i].1));
                assert(keyed_spelling(nodes, after.table(g)[i].0, after.table(g)[i].1));
            } else {
                assert(after.table(g) == before.table(g));
                assert(keyed_spelling(nodes, before.table(g)[i].0, before.table(g)[i].1));
                assert(keyed_spelling(nodes, after.table(g)[i].0, after.table(g)[i].1));
            }
        }
        assert forall|u: Value| #[trigger]
            spells_value(nodes, node.0, u) implies keyed_spelling(nodes, term_tokens(u), r) by {
            lemma_value_tokens_agree(nodes, node.0, t, u, Seq::empty(), NESTING_LIMIT as nat);
            match find_key(table, key) {
                Some(index) => {
                    assert(keyed_spelling(nodes, before.table(face)[index].0, before.table(face)[index].1));
                },
                None => {
                    assert(spells_value(nodes, r.0, t));
                },
            }
        }
    } else {
        let key = word(TAG_MISSING);
        lemma_find_key(table, key);
        assert((after.table(face), r) == intern_step(table, key, node));
        if find_key(table, key) is None {
            assert(after.table(face) == table.push((key, node)));
        } else {
            assert(after.table(face) == table);
        }
        assert forall|g: Face, i: int|
            0 <= i < after.table(g).len() && after.table(g)[i].0 != word(TAG_MISSING) implies
            #[trigger] keyed_spelling(nodes, after.table(g)[i].0, after.table(g)[i].1) by {
            if g == face && i == table.len() {
                assert(after.table(g)[i] == (key, node));
            } else if g == face {
                assert(after.table(g)[i] == table[i]);
                assert(keyed_spelling(nodes, before.table(g)[i].0, before.table(g)[i].1));
            } else {
                assert(keyed_spelling(nodes, before.table(g)[i].0, before.table(g)[i].1));
            }
        }
    }
}

impl Normalizer {
    /// The store is in topological order, and every interned representative
    /// spells a term carrying its key.
    pub open spec fn wf(self) -> bool {
        &&& self.syntax.wf()
        &&& interner_sound(self.interner, self.syntax.nodes())
    }

    /// A normalizer with an empty definitional environment.
    pub fn new() -> (n: Normalizer)
        ensures
            n.wf(),
            n.next_level == 0,
            n.fuel == DEFAULT_FUEL,
            n.defs.entries().len() == 0,
            n.defs.marks().len() == 0,
            n.interner.table(Face::ElaborationInput).len() == 0,
            n.interner.table(Face::ReadbackNormalForm).len() == 0,
            n.arena.value_nodes().len() == 0,
            n.arena.comp_nodes().len() == 0,
            n.arena.closure_nodes().len() == 0,
            n.arena.frames().len() == 0,
            n.arena.neutral_nodes().len() == 0,
            n.syntax.nodes().len() == 0,
    {
        Normalizer {
            arena: SemArena::new(),
            defs: Definitions::new(),
            syntax: FlatArena::new(),
            interner: SyntaxInterner::new(),
            next_level: 0,
            fuel: DEFAULT_FUEL,
        }
    }

    /// The definitional environment.
    pub fn definitions(&self) -> (d: &Definitions)
        ensures
            *d == self.defs,
    {
        &self.defs
    }

    /// The definitional environment, for scoping.
    pub fn definitions_mut(&mut self) -> (d: &mut Definitions)
        ensures
            *d == old(self).defs,
            final(self).defs == *final(d),
            final(self).arena == old(self).arena,
            final(self).syntax == old(self).syntax,
    {
        &mut self.defs
    }

    /// The semantic arena.
    pub fn arena(&self) -> (a: &SemArena)
        ensures
            *a == self.arena,
    {
        &self.arena
    }

    /// The semantic arena, for minting.
    pub fn arena_mut(&mut self) -> (a: &mut SemArena)
        ensures
            *a == old(self).arena,
            final(self).arena == *final(a),
            final(self).syntax == old(self).syntax,
    {
        &mut self.arena
    }

    /// A normalizer over an existing definitional environment.
    pub fn with_definitions(defs: Definitions) -> (n: Normalizer)
        ensures
            n.wf(),
            n.defs == defs,
            n.next_level == 0,
            n.fuel == DEFAULT_FUEL,
            n.interner.table(Face::ElaborationInput).len() == 0,
            n.interner.table(Face::ReadbackNormalForm).len() == 0,
            n.arena.value_nodes().len() == 0,
            n.arena.comp_nodes().len() == 0,
            n.arena.closure_nodes().len() == 0,
            n.arena.frames().len() == 0,
            n.arena.neutral_nodes().len() == 0,
            n.syntax.nodes().len() == 0,
    {
        let mut fresh = Normalizer::new();
        fresh.defs = defs;
        fresh
    }

    /// The per-face syntax interner.
    pub fn interner(&self) -> (i: &SyntaxInterner)
        ensures
            *i == self.interner,
    {
        &self.interner
    }

    /// The syntax store every handle names.
    pub fn syntax(&self) -> (s: &FlatArena)
        ensures
            *s == self.syntax,
    {
        &self.syntax
    }

    /// The syntax store, for lowering.
    pub fn syntax_mut(&mut self) -> (s: &mut FlatArena)
        ensures
            *s == old(self).syntax,
            final(self).syntax == *final(s),
            final(self).arena == old(self).arena,
            final(self).defs == old(self).defs,
            final(self).interner == old(self).interner,
    {
        &mut self.syntax
    }

    /// The unfolding budget one force may spend.
    pub fn fuel(&self) -> (f: u32)
        ensures
            f == self.fuel,
    {
        self.fuel
    }

    /// Sets the unfolding budget one force may spend.
    pub fn set_fuel(&mut self, fuel: u32)
        ensures
            final(self).fuel == fuel,
            final(self).arena == old(self).arena,
            final(self).syntax == old(self).syntax,
            final(self).defs == old(self).defs,
            final(self).interner == old(self).interner,
            final(self).next_level == old(self).next_level,
    {
        self.fuel = fuel;
    }

    /// The arena population, for a later [`Self::truncate_to`].
    pub fn watermark(&self) -> (m: Watermark)
        ensures
            at_mark(self.arena, m),
    {
        self.arena.watermark()
    }

    /// Drops every semantic node minted after `mark`.
    pub fn truncate_to(&mut self, mark: Watermark)
        ensures
            old(self).wf() ==> final(self).wf(),
            final(self).arena.value_nodes().len() == min_len(
                mark.values,
                old(self).arena.value_nodes().len(),
            ),
            final(self).arena.comp_nodes().len() == min_len(
                mark.comps,
                old(self).arena.comp_nodes().len(),
            ),
            final(self).arena.closure_nodes().len() == min_len(
                mark.closures,
                old(self).arena.closure_nodes().len(),
            ),
            final(self).arena.frames().len() == min_len(mark.envs, old(self).arena.frames().len()),
            final(self).arena.neutral_nodes().len() == min_len(
                mark.neutrals,
                old(self).arena.neutral_nodes().len(),
            ),
            final(self).syntax == old(self).syntax,
            final(self).defs == old(self).defs,
            final(self).interner == old(self).interner,
            final(self).fuel == old(self).fuel,
            final(self).next_level == old(self).next_level,
    {
        self.arena.truncate_to(mark);
    }

    /// Opens a run: records the arena population and restarts the fresh-level
    /// counter, so a run names its binders the same way every time.
    fn begin_run(&mut self) -> (opened: (Watermark, u32))
        ensures
            at_mark(old(self).arena, opened.0),
            opened.1 == old(self).next_level,
            final(self).next_level == 0,
            final(self).arena == old(self).arena,
            final(self).syntax == old(self).syntax,
            final(self).defs == old(self).defs,
            final(self).interner == old(self).interner,
            final(self).fuel == old(self).fuel,
    {
        let opened = (self.watermark(), self.next_level);
        self.next_level = 0;
        opened
    }

    /// Closes a run opened by [`Self::begin_run`]: truncates its semantic
    /// nodes and restores the enclosing run's fresh-level counter.
    fn finish_run(&mut self, opened: (Watermark, u32), before: Ghost<SemArena>)
        requires
            old(self).wf(),
            at_mark(before@, opened.0),
            grows(before@, old(self).arena),
        ensures
            final(self).wf(),
            same_population(final(self).arena, before@),
            final(self).next_level == opened.1,
            final(self).syntax == old(self).syntax,
            final(self).defs == old(self).defs,
            final(self).interner == old(self).interner,
            final(self).fuel == old(self).fuel,
    {
        self.truncate_to(opened.0);
        self.next_level = opened.1;
    }

    /// Lowers a caller's term into the syntax store and interns it into the
    /// **input** face, returning the node the engine will work from.
    pub fn lower_input(&mut self, term: &Value) -> (r: Result<ValueNodeId, SemError>)
        requires
            old(self).wf(),
        ensures
            final(self).wf(),
            final(self).arena == old(self).arena,
            final(self).defs == old(self).defs,
            final(self).fuel == old(self).fuel,
            final(self).next_level == old(self).next_level,
            final(self).syntax.nodes().len() >= old(self).syntax.nodes().len(),
            final(self).interner.table(Face::ReadbackNormalForm) == old(self).interner.table(
                Face::ReadbackNormalForm,
            ),
            final(self).interner.table(Face::ElaborationInput).len() >= old(self).interner.table(
                Face::ElaborationInput,
            ).len(),
            extends(final(self).syntax.nodes(), old(self).syntax.nodes()),
            r is Err ==> r == Err::<ValueNodeId, SemError>(SemError::SyntaxStore)
                && final(self).interner == old(self).interner,
            leaf_value(*term) ==> (r is Ok <==> old(self).syntax.nodes().len() <= u32::MAX),
            r is Err ==> !value_fits(*term, NESTING_LIMIT as nat) || final(self).syntax.nodes().len()
                > u32::MAX,
            r is Ok ==> value_fits(*term, NESTING_LIMIT as nat),
            unseen_input(old(self).interner, *term) ==> (r matches Ok(id) ==> spells_value(
                final(self).syntax.nodes(),
                id.0,
                *term,
            )),
            leaf_value(*term) && r is Ok ==> final(self).syntax.nodes().len() == old(
                self,
            ).syntax.nodes().len() + 1,
            r matches Ok(rep) ==> keyed_spelling(final(self).syntax.nodes(), term_tokens(*term), rep),
            inert_value(*term, NESTING_LIMIT as nat) ==> final(self).syntax.nodes().len() <= old(
                self,
            ).syntax.nodes().len() + value_size(*term, NESTING_LIMIT as nat),
            r matches Ok(id) ==> exists|node: ValueNodeId|
                #[trigger] spells_value(final(self).syntax.nodes(), node.0, *term) && (
                final(self).interner.table(Face::ElaborationInput),
                id,
                ) == intern_step(
                    old(self).interner.table(Face::ElaborationInput),
                    term_tokens(*term),
                    node,
                ),
    {
        let allocated = self.syntax.alloc_value(term);
        proof {
            lemma_interner_sound_extends(self.interner, old(self).syntax.nodes(), self.syntax.nodes());
        }
        let node = match allocated {
            Ok(node) => node,
            Err(_) => {
                return Err(SemError::SyntaxStore);
            },
        };
        let ghost before = self.interner;
        let id = self.interner.intern(&self.syntax, Face::ElaborationInput, node);
        proof {
            assert(spells_value(self.syntax.nodes(), node.0, *term));
            lemma_interner_sound_intern(
                before,
                self.interner,
                self.syntax.nodes(),
                Face::ElaborationInput,
                node,
                id,
            );
            assert(keyed_spelling(self.syntax.nodes(), term_tokens(*term), id));
            if unseen_input(old(self).interner, *term) {
                assert(find_key(before.table(Face::ElaborationInput), term_tokens(*term)) is None);
                assert(id == node);
            }
        }
        Ok(id)
    }

    /// Interns a node into the **readback** face's table; the input face's
    /// table is untouched.
    pub fn intern_readback(&mut self, node: ValueNodeId) -> (r: ValueNodeId)
        requires
            old(self).wf(),
        ensures
            final(self).wf(),
            final(self).arena == old(self).arena,
            final(self).syntax == old(self).syntax,
            final(self).defs == old(self).defs,
            final(self).fuel == old(self).fuel,
            final(self).next_level == old(self).next_level,
            final(self).interner.table(Face::ElaborationInput) == old(self).interner.table(
                Face::ElaborationInput,
            ),
            forall|t: Value| #[trigger]
                spells_value(old(self).syntax.nodes(), node.0, t) ==> (
                final(self).interner.table(Face::ReadbackNormalForm),
                r,
                ) == intern_step(
                    old(self).interner.table(Face::ReadbackNormalForm),
                    term_tokens(t),
                    node,
                ),
            !(exists|t: Value| spells_value(old(self).syntax.nodes(), node.0, t)) ==> (
            final(self).interner.table(Face::ReadbackNormalForm),
            r,
            ) == intern_step(
                old(self).interner.table(Face::ReadbackNormalForm),
                word(TAG_MISSING),
                node,
            ),
            forall|t: Value| #[trigger]
                spells_value(old(self).syntax.nodes(), node.0, t) ==> keyed_spelling(
                    final(self).syntax.nodes(),
                    term_tokens(t),
                    r,
                ),
    {
        let ghost before = self.interner;
        let r = self.interner.intern(&self.syntax, Face::ReadbackNormalForm, node);
        proof {
            lemma_interner_sound_intern(
                before,
                self.interner,
                self.syntax.nodes(),
                Face::ReadbackNormalForm,
                node,
                r,
            );
        }
        r
    }

    /// Reads a syntax node back out to an ordinary term.
    pub fn reify(&self, node: ValueNodeId) -> (r: Result<Rc<Value>, SemError>)
        requires
            self.wf(),
        ensures
            r is Err ==> r == Err::<Rc<Value>, SemError>(SemError::SyntaxStore),
            r matches Ok(term) ==> spells_value(self.syntax.nodes(), node.0, *term),
            (exists|t: Value| #[trigger] spells_value(self.syntax.nodes(), node.0, t)) ==> r is Ok,
    {
        match self.syntax.value(node) {
            Ok(term) => Ok(Rc::new(term)),
            Err(_) => Err(SemError::SyntaxStore),
        }
    }

    /// Defines `name` as `body`, reducible, lowering the body into the syntax
    /// store on the way.
    pub fn define(&mut self, name: &str, body: &Value) -> (r: Result<(), SemError>)
        requires
            old(self).wf(),
        ensures
            final(self).wf(),
            r is Ok ==> (crate::nbe::defs::resolve(final(self).defs.entries(), name@) matches Some(
                d,
            ) && d.transparency == Transparency::Reducible),
            r is Ok ==> final(self).defs.entries().drop_last() == old(self).defs.entries(),
            r is Ok ==> final(self).defs.entries().last().name@ == name@
                && final(self).defs.entries().last().height == height_above(
                old(self).defs.entries(),
                final(self).syntax.nodes(),
                final(self).defs.entries().last().body,
            ),
            r is Err ==> final(self).defs == old(self).defs,
            r is Err ==> r == Err::<(), SemError>(SemError::SyntaxStore),
            leaf_value(*body) && old(self).syntax.nodes().len() <= u32::MAX ==> r is Ok,
            r is Err ==> !value_fits(*body, NESTING_LIMIT as nat) || final(self).syntax.nodes().len()
                > u32::MAX,
            r is Ok ==> keyed_spelling(
                final(self).syntax.nodes(),
                term_tokens(*body),
                final(self).defs.entries().last().body,
            ),
            unseen_input(old(self).interner, *body) && r is Ok ==> spells_value(
                final(self).syntax.nodes(),
                final(self).defs.entries().last().body.0,
                *body,
            ),
    {
        self.define_with(name, body, Transparency::Reducible)
    }

    /// Defines `name` as `body` with an explicit transparency.
    pub fn define_with(&mut self, name: &str, body: &Value, transparency: Transparency) -> (r:
        Result<(), SemError>)
        requires
            old(self).wf(),
        ensures
            final(self).wf(),
            r is Ok ==> (crate::nbe::defs::resolve(final(self).defs.entries(), name@) matches Some(
                d,
            ) && d.transparency == transparency),
            r is Ok ==> final(self).defs.entries().drop_last() == old(self).defs.entries(),
            r is Ok ==> final(self).defs.entries().last().name@ == name@
                && final(self).defs.entries().last().height == height_above(
                old(self).defs.entries(),
                final(self).syntax.nodes(),
                final(self).defs.entries().last().body,
            ),
            r is Err ==> final(self).defs == old(self).defs,
            r is Err ==> r == Err::<(), SemError>(SemError::SyntaxStore),
            leaf_value(*body) && old(self).syntax.nodes().len() <= u32::MAX ==> r is Ok,
            r is Err ==> !value_fits(*body, NESTING_LIMIT as nat) || final(self).syntax.nodes().len()
                > u32::MAX,
            r is Ok ==> keyed_spelling(
                final(self).syntax.nodes(),
                term_tokens(*body),
                final(self).defs.entries().last().body,
            ),
            unseen_input(old(self).interner, *body) && r is Ok ==> spells_value(
                final(self).syntax.nodes(),
                final(self).defs.entries().last().body.0,
                *body,
            ),
    {
        let node = self.lower_input(body)?;
        self.defs.define_with(&self.syntax, name, node, transparency);
        Ok(())
    }

    /// Evaluates a lowered node and reads it back canonically, within an open
    /// run.
    fn normal_form(&mut self, lowered: ValueNodeId) -> (r: Result<ValueNodeId, SemError>)
        requires
            old(self).wf(),
        ensures
            reads_back(*old(self), *final(self)),
            value_inert(old(self).syntax.nodes(), lowered.0) ==> (r matches Ok(q) ==> forall|t: Value|
                #[trigger] spells_value(old(self).syntax.nodes(), lowered.0, t) ==> spells_value(
                    final(self).syntax.nodes(),
                    q.0,
                    t,
                )),
            plain_literal_at(old(self).syntax.nodes(), lowered.0) && has_room(
                old(self).arena.value_nodes().len(),
            ) && old(self).syntax.nodes().len() <= u32::MAX ==> r is Ok,
            inert_cost(old(self).syntax.nodes(), lowered.0, EVAL_DEPTH as nat) is Some
                && old(self).arena.value_nodes().len() + inert_cost(old(self).syntax.nodes(), lowered.0, EVAL_DEPTH as nat)->Some_0
                <= u32::MAX + 1 && old(self).syntax.nodes().len() + inert_cost(
                old(self).syntax.nodes(),
                lowered.0,
                EVAL_DEPTH as nat,
            )->Some_0 <= u32::MAX + 1 ==> r is Ok,
            r matches Ok(q) ==> normal_readback(
                old(self).defs.entries(),
                old(self).syntax.nodes(),
                final(self).syntax.nodes(),
                lowered.0,
                q.0,
            ),
    {
        let ghost start = *self;
        let env = SemArena::empty_env();
        let evaluated = crate::nbe::eval::eval_value(self, env, lowered)?;
        let ghost middle = *self;
        proof {
            assert(EVAL_DEPTH == crate::nbe::quote::QUOTE_DEPTH);
        }
        let quoted = crate::nbe::quote::quote_value(
            self,
            evaluated,
            crate::nbe::quote::QuoteMode::Canonical,
        )?;
        proof {
            if value_inert(start.syntax.nodes(), lowered.0) {
                assert forall|t: Value| #[trigger]
                    spells_value(start.syntax.nodes(), lowered.0, t) implies spells_value(
                    self.syntax.nodes(),
                    quoted.0,
                    t,
                ) by {
                    lemma_quote_after_eval_inert(
                        middle.arena,
                        self.arena,
                        start.defs.entries(),
                        start.syntax.nodes(),
                        self.syntax.nodes(),
                        lowered.0,
                        evaluated,
                        quoted.0,
                        t,
                    );
                }
            }
            assert(evaluated_value(
                middle.arena,
                start.defs.entries(),
                start.syntax.nodes(),
                EnvId(0),
                lowered.0,
                evaluated,
            ));
            assert(quoted_value(self.arena, self.syntax.nodes(), QuoteMode::Canonical, evaluated, quoted.0));
            assert(grows(middle.arena, self.arena));
            assert(extends(self.syntax.nodes(), start.syntax.nodes()));
        }
        Ok(quoted)
    }

    /// Normalizes a source value and returns the node its normal form
    /// occupies in the syntax store, interned into the readback face. The
    /// run's semantic nodes are truncated away before it returns, whatever
    /// the outcome.
    pub fn normalize_node(&mut self, term: &Value) -> (r: Result<ValueNodeId, SemError>)
        requires
            old(self).wf(),
        ensures
            final(self).wf(),
            same_population(final(self).arena, old(self).arena),
            final(self).next_level == old(self).next_level,
            final(self).defs == old(self).defs,
            final(self).fuel == old(self).fuel,
            final(self).interner.table(Face::ElaborationInput).len() >= old(self).interner.table(
                Face::ElaborationInput,
            ).len(),
            unseen_input(old(self).interner, *term) && inert_term(*term, NESTING_LIMIT as nat) ==> (
            r matches Ok(n) ==> keyed_spelling(final(self).syntax.nodes(), term_tokens(*term), n)),
            fresh_tables(old(self).interner) && inert_term(*term, NESTING_LIMIT as nat) ==> (
            r matches Ok(n) ==> spells_value(final(self).syntax.nodes(), n.0, *term)),
            unseen_input(old(self).interner, *term) && plain_value(*term) && has_room(
                old(self).arena.value_nodes().len(),
            ) && old(self).syntax.nodes().len() + 1 <= u32::MAX ==> r is Ok,
            unseen_input(old(self).interner, *term) && inert_value(*term, EVAL_DEPTH as nat)
                && old(self).arena.value_nodes().len() + value_size(*term, EVAL_DEPTH as nat) <= u32::MAX + 1
                && old(self).syntax.nodes().len() + 2 * value_size(*term, EVAL_DEPTH as nat) <= u32::MAX
                + 1 ==> r is Ok,
            r matches Ok(n) ==> normalizes_to(
                old(self).defs.entries(),
                old(self).syntax.nodes(),
                final(self).syntax.nodes(),
                *term,
                n,
            ),
    {
        let ghost tables_fresh = fresh_tables(self.interner);
        let ghost unseen = unseen_input(self.interner, *term);
        let ghost roomy = unseen && inert_value(*term, EVAL_DEPTH as nat) && self.arena.value_nodes().len()
            + value_size(*term, EVAL_DEPTH as nat) <= u32::MAX + 1 && self.syntax.nodes().len() + 2
            * value_size(*term, EVAL_DEPTH as nat) <= u32::MAX + 1;
        proof {
            if roomy {
                crate::store::lemma_inert_value_deeper(*term, EVAL_DEPTH as nat, NESTING_LIMIT as nat);
                crate::store::lemma_inert_value_fits(*term, NESTING_LIMIT as nat);
            }
        }
        let lowered = self.lower_input(term)?;
        let ghost lowered_at = *self;
        proof {
            if roomy {
                crate::nbe::eval::lemma_inert_cost_of_spelled(self.syntax.nodes(), lowered.0, *term, EVAL_DEPTH as nat);
            }
        }
        proof {
            if (unseen || tables_fresh) && inert_term(*term, NESTING_LIMIT as nat) {
                let table = old(self).interner.table(Face::ElaborationInput);
                assert(find_key(table, term_tokens(*term)) is None);
                lemma_inert_term_node(self.syntax.nodes(), lowered.0, *term, NESTING_LIMIT as nat);
            }
        }
        let ghost before = self.arena;
        let opened = self.begin_run();
        let outcome = self.normal_form(lowered);
        self.finish_run(opened, Ghost(before));
        let quoted = outcome?;
        let n = self.intern_readback(quoted);
        proof {
            if (unseen || tables_fresh) && inert_term(*term, NESTING_LIMIT as nat) {
                assert(spells_value(lowered_at.syntax.nodes(), lowered.0, *term));
                assert(spells_value(self.syntax.nodes(), quoted.0, *term));
                assert(keyed_spelling(self.syntax.nodes(), term_tokens(*term), n));
            }
            if tables_fresh && inert_term(*term, NESTING_LIMIT as nat) {
                let table = old(self).interner.table(Face::ReadbackNormalForm);
                assert(find_key(table, term_tokens(*term)) is None);
            }
            assert(extends(lowered_at.syntax.nodes(), old(self).syntax.nodes()));
            assert(keyed_spelling(lowered_at.syntax.nodes(), term_tokens(*term), lowered));
            assert(normal_readback(
                old(self).defs.entries(),
                lowered_at.syntax.nodes(),
                self.syntax.nodes(),
                lowered.0,
                quoted.0,
            ));
        }
        Ok(n)
    }

    /// Normalizes a source value: evaluate, read back canonically, intern,
    /// and reify. The arena is left where it was found.
    pub fn normalize(&mut self, term: &Value) -> (r: Result<Rc<Value>, SemError>)
        requires
            old(self).wf(),
        ensures
            final(self).wf(),
            same_population(final(self).arena, old(self).arena),
            final(self).next_level == old(self).next_level,
            final(self).defs == old(self).defs,
            unseen_input(old(self).interner, *term) && inert_term(*term, NESTING_LIMIT as nat) ==> (
            r matches Ok(out) ==> term_tokens(*out) == term_tokens(*term)),
            unseen_input(old(self).interner, *term) && plain_value(*term) && has_room(
                old(self).arena.value_nodes().len(),
            ) && old(self).syntax.nodes().len() + 1 <= u32::MAX ==> r is Ok,
            unseen_input(old(self).interner, *term) && inert_value(*term, EVAL_DEPTH as nat)
                && old(self).arena.value_nodes().len() + value_size(*term, EVAL_DEPTH as nat) <= u32::MAX + 1
                && old(self).syntax.nodes().len() + 2 * value_size(*term, EVAL_DEPTH as nat) <= u32::MAX
                + 1 ==> r is Ok,
            r matches Ok(out) ==> exists|n: ValueNodeId| #[trigger]
                normalizes_to(
                    old(self).defs.entries(),
                    old(self).syntax.nodes(),
                    final(self).syntax.nodes(),
                    *term,
                    n,
                ) && spells_value(final(self).syntax.nodes(), n.0, *out),
    {
        proof {
            if inert_value(*term, EVAL_DEPTH as nat) {
                crate::nbe::quote::lemma_inert_value_is_inert_term(*term, EVAL_DEPTH as nat, NESTING_LIMIT as nat);
            }
        }
        let node = self.normalize_node(term)?;
        proof {
            if plain_value(*term) {
                assert(inert_term(*term, NESTING_LIMIT as nat));
            }
        }
        let out = self.reify(node)?;
        proof {
            if unseen_input(old(self).interner, *term) && inert_term(*term, NESTING_LIMIT as nat) {
                let nodes = self.syntax.nodes();
                let u = choose|u: Value| #[trigger]
                    spells_value(nodes, node.0, u) && term_tokens(*term) == term_tokens(u);
                lemma_value_tokens_agree(
                    nodes,
                    node.0,
                    pointee(out),
                    u,
                    Seq::empty(),
                    NESTING_LIMIT as nat,
                );
            }
        }
        Ok(out)
    }

    /// Evaluates two lowered nodes and compares them, within an open run.
    fn compare_nodes(
        &mut self,
        lhs: ValueNodeId,
        rhs: ValueNodeId,
        Ghost(t): Ghost<Value>,
        Ghost(u): Ghost<Value>,
    ) -> (r: Result<bool, SemError>)
        requires
            old(self).wf(),
        ensures
            spells_value(old(self).syntax.nodes(), lhs.0, t) && spells_value(old(self).syntax.nodes(), rhs.0, u)
                && inert_value(t, CONV_DEPTH as nat) && inert_value(u, CONV_DEPTH as nat) && terms_agree(
                t,
                u,
                CONV_DEPTH as nat,
            ) && old(self).arena.value_nodes().len() + value_size(t, CONV_DEPTH as nat) + value_size(
                u,
                CONV_DEPTH as nat,
            ) <= u32::MAX + 1 ==> r == Ok::<bool, SemError>(true),
            crate::nbe::evaluates(*old(self), *final(self)),
            !(lhs.0 < old(self).syntax.nodes().len() && old(self).syntax.nodes()[lhs.0 as int] is Value)
                ==> r == Err::<bool, SemError>(SemError::MissingSyntaxValue(lhs)),
            plain_literal_at(old(self).syntax.nodes(), lhs.0) && plain_literal_at(
                old(self).syntax.nodes(),
                rhs.0,
            ) && old(self).arena.value_nodes().len() + 2 <= u32::MAX + 1 ==> r == Ok::<bool, SemError>(
                shallow_verdict(
                    literal_form(old(self).syntax.nodes()[lhs.0 as int]->Value_0),
                    literal_form(old(self).syntax.nodes()[rhs.0 as int]->Value_0),
                ) == Some(true),
            ),
            r == Ok::<bool, SemError>(true) ==> evaluations_may_convert(
                old(self).defs.entries(),
                old(self).syntax.nodes(),
                lhs.0,
                rhs.0,
            ),
    {
        let ghost entries = self.defs.entries();
        let ghost nodes = self.syntax.nodes();
        let ghost agreeing = spells_value(nodes, lhs.0, t) && spells_value(nodes, rhs.0, u) && inert_value(
            t,
            CONV_DEPTH as nat,
        ) && inert_value(u, CONV_DEPTH as nat) && terms_agree(t, u, CONV_DEPTH as nat)
            && self.arena.value_nodes().len() + value_size(t, CONV_DEPTH as nat) + value_size(
            u,
            CONV_DEPTH as nat,
        ) <= u32::MAX + 1;
        proof {
            if agreeing {
                assert(CONV_DEPTH <= EVAL_DEPTH);
                crate::store::lemma_inert_value_deeper(t, CONV_DEPTH as nat, EVAL_DEPTH as nat);
                crate::store::lemma_inert_value_deeper(u, CONV_DEPTH as nat, EVAL_DEPTH as nat);
                crate::nbe::eval::lemma_inert_cost_of_spelled(nodes, lhs.0, t, EVAL_DEPTH as nat);
                crate::nbe::eval::lemma_inert_cost_of_spelled(nodes, rhs.0, u, EVAL_DEPTH as nat);
            }
        }
        let left = crate::nbe::eval::eval_value(self, SemArena::empty_env(), lhs)?;
        let ghost first = self.arena;
        let right = crate::nbe::eval::eval_value(self, SemArena::empty_env(), rhs)?;
        let ghost second = self.arena;
        proof {
            crate::nbe::eval::lemma_evaluated_value_stable(first, second, entries, nodes, EnvId(0), lhs.0, left);
        }
        proof {
            if agreeing {
                crate::nbe::conv::lemma_ground_agree_of_terms(
                    second,
                    entries,
                    nodes,
                    lhs.0,
                    rhs.0,
                    t,
                    u,
                    left,
                    right,
                    CONV_DEPTH as nat,
                );
            }
        }
        let r = crate::nbe::conv::converts_values(self, left, right);
        proof {
            if r == Ok::<bool, SemError>(true) {
                assert(heads_may_convert(second, left, right));
                assert(evaluated_value(second, entries, nodes, EnvId(0), lhs.0, left));
                assert(evaluated_value(second, entries, nodes, EnvId(0), rhs.0, right));
            }
        }
        r
    }

    /// Decides definitional equality of two source values. Two terms that
    /// lower to one input representative (alpha-identical terms) are
    /// convertible outright, the identity step of the pipeline, and so is a
    /// hole with any value, which it stands for; otherwise both are evaluated
    /// and compared. An error inside the engine is
    /// absorbed into a **distinct** verdict, the fail-closed direction, and
    /// the arena is left where it was found.
    pub fn converts(&mut self, lhs: &Rc<Value>, rhs: &Rc<Value>) -> (b: bool)
        requires
            old(self).wf(),
        ensures
            final(self).wf(),
            same_population(final(self).arena, old(self).arena),
            final(self).next_level == old(self).next_level,
            final(self).defs == old(self).defs,
            final(self).fuel == old(self).fuel,
            leaf_value(pointee(*lhs)) && old(self).syntax.nodes().len() > u32::MAX ==> !b,
            value_fits(pointee(*lhs), NESTING_LIMIT as nat) && value_fits(
                pointee(*rhs),
                NESTING_LIMIT as nat,
            ) && term_tokens(pointee(*lhs)) == term_tokens(pointee(*rhs))
                && final(self).syntax.nodes().len() <= u32::MAX ==> b,
            value_fits(pointee(*lhs), NESTING_LIMIT as nat) && value_fits(
                pointee(*rhs),
                NESTING_LIMIT as nat,
            ) && (pointee(*lhs) is Hole || pointee(*rhs) is Hole) && final(self).syntax.nodes().len()
                <= u32::MAX ==> b,
            unseen_input(old(self).interner, pointee(*lhs)) && unseen_input(old(self).interner, pointee(*rhs))
                && inert_value(pointee(*lhs), CONV_DEPTH as nat) && inert_value(pointee(*rhs), CONV_DEPTH as nat)
                && terms_agree(pointee(*lhs), pointee(*rhs), CONV_DEPTH as nat) && old(self).arena.value_nodes().len()
                + value_size(pointee(*lhs), CONV_DEPTH as nat) + value_size(pointee(*rhs), CONV_DEPTH as nat)
                <= u32::MAX + 1 && old(self).syntax.nodes().len() + value_size(pointee(*lhs), CONV_DEPTH as nat)
                + value_size(pointee(*rhs), CONV_DEPTH as nat) <= u32::MAX ==> b,
            b ==> pointee(*lhs) is Hole || pointee(*rhs) is Hole || exists|ln: ValueNodeId, rn: ValueNodeId|
                #![trigger keyed_spelling(final(self).syntax.nodes(), term_tokens(pointee(*lhs)), ln), keyed_spelling(final(self).syntax.nodes(), term_tokens(pointee(*rhs)), rn)]
                keyed_spelling(final(self).syntax.nodes(), term_tokens(pointee(*lhs)), ln)
                    && keyed_spelling(final(self).syntax.nodes(), term_tokens(pointee(*rhs)), rn) && (ln
                    == rn || evaluations_may_convert(
                    old(self).defs.entries(),
                    final(self).syntax.nodes(),
                    ln.0,
                    rn.0,
                )),
            unseen_input(old(self).interner, pointee(*lhs)) && unseen_input(
                old(self).interner,
                pointee(*rhs),
            ) && plain_value(pointee(*lhs)) && plain_value(pointee(*rhs))
                && old(self).arena.value_nodes().len() + 2 <= u32::MAX + 1 && old(self).syntax.nodes().len()
                + 2 <= u32::MAX ==> b == (term_tokens(pointee(*lhs)) == term_tokens(pointee(*rhs))
                || literals_convert(pointee(*lhs), pointee(*rhs))),
    {
        let ghost t = pointee(*lhs);
        let ghost u = pointee(*rhs);
        let ghost t0 = self.interner.table(Face::ElaborationInput);
        let ghost agreeing = unseen_input(self.interner, t) && unseen_input(self.interner, u) && inert_value(
            t,
            CONV_DEPTH as nat,
        ) && inert_value(u, CONV_DEPTH as nat) && terms_agree(t, u, CONV_DEPTH as nat)
            && self.arena.value_nodes().len() + value_size(t, CONV_DEPTH as nat) + value_size(
            u,
            CONV_DEPTH as nat,
        ) <= u32::MAX + 1 && self.syntax.nodes().len() + value_size(t, CONV_DEPTH as nat) + value_size(
            u,
            CONV_DEPTH as nat,
        ) <= u32::MAX;
        proof {
            if agreeing {
                assert(CONV_DEPTH <= NESTING_LIMIT);
                crate::store::lemma_inert_value_deeper(t, CONV_DEPTH as nat, NESTING_LIMIT as nat);
                crate::store::lemma_inert_value_deeper(u, CONV_DEPTH as nat, NESTING_LIMIT as nat);
                crate::store::lemma_inert_value_fits(t, NESTING_LIMIT as nat);
                crate::store::lemma_inert_value_fits(u, NESTING_LIMIT as nat);
            }
        }
        let left = match self.lower_input(lhs) {
            Ok(node) => node,
            Err(_) => {
                return false;
            },
        };
        let ghost lowered = *self;
        let right = match self.lower_input(rhs) {
            Ok(node) => node,
            Err(_) => {
                return false;
            },
        };
        proof {
            let t1 = lowered.interner.table(Face::ElaborationInput);
            let t2 = self.interner.table(Face::ElaborationInput);
            let n1 = choose|node: ValueNodeId|
                #[trigger] spells_value(lowered.syntax.nodes(), node.0, t) && (t1, left) == intern_step(
                    t0,
                    term_tokens(t),
                    node,
                );
            let n2 = choose|node: ValueNodeId|
                #[trigger] spells_value(self.syntax.nodes(), node.0, u) && (t2, right) == intern_step(
                    t1,
                    term_tokens(u),
                    node,
                );
            if term_tokens(u) == term_tokens(t) {
                crate::nbe::intern::lemma_intern_dedups(t0, term_tokens(t), n1, n2);
                assert(right == left);
            }
            if unseen_input(old(self).interner, t) && unseen_input(old(self).interner, u) {
                assert(find_key(t0, term_tokens(t)) is None);
                assert(left == n1);
                assert(t1 == t0.push((term_tokens(t), left)));
                lemma_value_spelling_kept(lowered.syntax.nodes(), self.syntax.nodes(), left.0, t);
                if term_tokens(u) != term_tokens(t) {
                    assert(t1.drop_last() =~= t0);
                    assert(find_key(t0, term_tokens(u)) is None);
                    assert(find_key(t1, term_tokens(u)) is None);
                    assert(right == n2);
                }
            }
        }
        proof {
            let w = choose|w: Value| #[trigger]
                spells_value(lowered.syntax.nodes(), left.0, w) && term_tokens(t) == term_tokens(w);
            lemma_value_spelling_kept(lowered.syntax.nodes(), self.syntax.nodes(), left.0, w);
            assert(keyed_spelling(self.syntax.nodes(), term_tokens(t), left));
            assert(keyed_spelling(self.syntax.nodes(), term_tokens(u), right));
        }
        if left == right {
            return true;
        }
        if let Value::Hole(_) = &**lhs {
            return true;
        }
        if let Value::Hole(_) = &**rhs {
            return true;
        }
        let ghost before = self.arena;
        let opened = self.begin_run();
        let verdict = self.compare_nodes(left, right, Ghost(t), Ghost(u));
        self.finish_run(opened, Ghost(before));
        proof {
            if verdict == Ok::<bool, SemError>(true) {
                assert(keyed_spelling(self.syntax.nodes(), term_tokens(t), left));
                assert(keyed_spelling(self.syntax.nodes(), term_tokens(u), right));
            }
        }
        match verdict {
            Ok(same) => same,
            Err(_) => false,
        }
    }

    /// Decides definitional equality of two value types; the arena is left
    /// where it was found.
    pub fn type_converts(&mut self, lhs: &ValueType, rhs: &ValueType) -> (b: bool)
        requires
            old(self).wf(),
        ensures
            final(self).wf(),
            same_population(final(self).arena, old(self).arena),
            final(self).next_level == old(self).next_level,
            final(self).defs == old(self).defs,
            lhs is Unknown || rhs is Unknown ==> b,
            crate::nbe::conv::shallow_type_verdict(*lhs, *rhs) matches Some(v) ==> b == v,
            crate::nbe::conv::type_verdict(*lhs, *rhs, crate::nbe::conv::CONV_DEPTH as nat) matches Some(
                v,
            ) ==> b == v,
    {
        crate::nbe::conv::type_converts(self, lhs, rhs)
    }

    /// The fresh level after `level`, saturating at the top.
    pub open spec fn next_after(level: u32) -> u32 {
        if level < u32::MAX {
            (level + 1) as u32
        } else {
            level
        }
    }

    /// Draws the next fresh de Bruijn level.
    pub fn fresh_level(&mut self) -> (level: u32)
        ensures
            level == old(self).next_level,
            final(self).next_level == Self::next_after(old(self).next_level),
            final(self).arena == old(self).arena,
            final(self).syntax == old(self).syntax,
            final(self).defs == old(self).defs,
            final(self).interner == old(self).interner,
            final(self).fuel == old(self).fuel,
    {
        let level = self.next_level;
        self.next_level = if level < u32::MAX {
            level + 1
        } else {
            level
        };
        level
    }
}

/// `q` of `more` is the canonical readback of an evaluation of the value
/// node `node` of `nodes` in the empty environment under `entries`: there is
/// a run whose arena evaluates the node to some value and, grown further,
/// reads that value back canonically as `q`, the store only growing between.
pub open spec fn normal_readback(
    entries: Seq<crate::nbe::defs::Definition>,
    nodes: Seq<SyntaxNode>,
    more: Seq<SyntaxNode>,
    node: u32,
    q: u32,
) -> bool {
    exists|a: SemArena, b: SemArena, id: SemValueId|
        #![trigger evaluated_value(a, entries, nodes, EnvId(0), node, id), quoted_value(b, more, QuoteMode::Canonical, id, q)]
        evaluated_value(a, entries, nodes, EnvId(0), node, id) && quoted_value(
            b,
            more,
            QuoteMode::Canonical,
            id,
            q,
        ) && grows(a, b) && extends(more, nodes)
}

/// `n` of `after` is the readback-face representative of the normal form of
/// `term`: `term` lowered, after `before`, to an input representative whose
/// canonical readback is some `q`, and `n` is interned under the key of what
/// `q` spells.
pub open spec fn normalizes_to(
    entries: Seq<crate::nbe::defs::Definition>,
    before: Seq<SyntaxNode>,
    after: Seq<SyntaxNode>,
    term: Value,
    n: ValueNodeId,
) -> bool {
    exists|mid: Seq<SyntaxNode>, lowered: ValueNodeId, q: u32|
        #![trigger normal_readback(entries, mid, after, lowered.0, q)]
        extends(mid, before) && keyed_spelling(mid, term_tokens(term), lowered) && normal_readback(
            entries,
            mid,
            after,
            lowered.0,
            q,
        ) && forall|t: Value| #[trigger]
            spells_value(after, q, t) ==> keyed_spelling(after, term_tokens(t), n)
}

/// The weak-head form a literal or hole evaluates to.
pub open spec fn plain_form_of(t: Value) -> SemValueNode {
    match t {
        Value::Int(i) => SemValueNode::Int(i),
        Value::Str(text) => SemValueNode::Str(text),
        Value::Num(n) => SemValueNode::Num(n),
        Value::Hole(h) => SemValueNode::Rigid(Rigid::Hole(h), ValueUnfold::Rigid),
        _ => SemValueNode::Unit,
    }
}

/// The weak heads of `i` and `j` in `a` do not tell them apart: the same
/// id, or heads whose shallow verdict is no distinction.
pub open spec fn heads_may_convert(a: SemArena, i: SemValueId, j: SemValueId) -> bool {
    i == j || !(i.0 < a.value_nodes().len() && j.0 < a.value_nodes().len()) || shallow_verdict(
        a.value_nodes()[i.0 as int].node,
        a.value_nodes()[j.0 as int].node,
    ) != Some(false)
}

/// Evaluating the value nodes `l` and `r` of `nodes` in the empty
/// environment gives values whose weak heads do not tell them apart.
pub open spec fn evaluations_may_convert(entries: Seq<crate::nbe::defs::Definition>, nodes: Seq<SyntaxNode>, l: u32, r: u32) -> bool {
    exists|a: SemArena, i: SemValueId, j: SemValueId|
        #![trigger evaluated_value(a, entries, nodes, EnvId(0), l, i), evaluated_value(a, entries, nodes, EnvId(0), r, j)]
        evaluated_value(a, entries, nodes, EnvId(0), l, i) && evaluated_value(
            a,
            entries,
            nodes,
            EnvId(0),
            r,
            j,
        ) && heads_may_convert(a, i, j)
}

/// Conversion's verdict on two literals or holes: a hole is consistent with
/// everything, and literals convert exactly when they are the same literal.
pub open spec fn literals_convert(lhs: Value, rhs: Value) -> bool {
    shallow_verdict(plain_form_of(lhs), plain_form_of(rhs)) == Some(true)
}

/// The fresh-level counter after `draws` draws from `start`.
pub open spec fn level_after(start: u32, draws: nat) -> u32
    decreases draws,
{
    if draws == 0 {
        start
    } else {
        Normalizer::next_after(level_after(start, (draws - 1) as nat))
    }
}

/// Within one run, below the counter's ceiling, the `k`-th draw comes
/// `k - j` levels after the `j`-th: levels are drawn in counting order and
/// none is drawn twice.
pub proof fn lemma_levels_distinct(start: u32, j: nat, k: nat)
    requires
        j < k,
        start + k <= u32::MAX,
    ensures
        level_after(start, k) == level_after(start, j) + (k - j),
        level_after(start, j) != level_after(start, k),
{
    lemma_level_after_exact(start, j);
    lemma_level_after_exact(start, k);
}

/// Below the counter's ceiling, `draws` draws advance it by exactly `draws`.
proof fn lemma_level_after_exact(start: u32, draws: nat)
    requires
        start + draws <= u32::MAX,
    ensures
        level_after(start, draws) == start + draws,
    decreases draws,
{
    if draws > 0 {
        lemma_level_after_exact(start, (draws - 1) as nat);
    }
}

/// The levels a run draws are pairwise distinct: the `i`-th and the `j`-th
/// draw differ, as long as the counter has not reached its ceiling.
pub proof fn lemma_fresh_levels_distinct(start: u32, i: nat, j: nat)
    requires
        i < j,
        start + j <= u32::MAX,
    ensures
        level_after(start, i) != level_after(start, j),
{
    lemma_level_after_exact(start, i);
    lemma_level_after_exact(start, j);
}

} // verus!
