//! The normalizer's **syntax** interner: one deduplicating table per
//! differential face, and nothing else.
//!
//! Interning is for static, beta-free data, and syntax is the only such data
//! the normalizer handles; semantic values are never interned. There are two
//! provenance classes and each gets its own table — the elaboration input and
//! the readback normal forms — and no lookup ever compares across them.
//!
//! A key is a term's full structural content in **canonical binder form**: a
//! token stream in which every binder emits nothing of its name and every
//! bound occurrence emits its de Bruijn index, so two alpha-equivalent terms
//! produce the same stream. Free occurrences emit their name. A key holds no
//! arena id, address, or session datum.

use std::rc::Rc;
use vstd::prelude::*;
use vstd::utf8::encode_utf8;

use crate::nbe::sem::mix_spec;
use crate::nbe::sem::mix_word;
use crate::nbe::sem::seed;
use crate::nbe::sem::FNV_OFFSET;
use crate::prim::NativePrim;
use crate::store::spelling::lemma_comp_children_spelled;
use crate::store::spelling::lemma_stack_children_spelled;
use crate::store::spelling::lemma_value_children_spelled;
use crate::store::spelling::pointee;
use crate::store::spelling::spells_branch;
use crate::store::spelling::spells_branches;
use crate::store::spelling::spells_clauses;
use crate::store::spelling::spells_comp;
use crate::store::spelling::spells_fields;
use crate::store::spelling::spells_stack;
use crate::store::spelling::spells_values;
use crate::store::BranchNode;
use crate::store::ClauseNode;
use crate::store::CompNode;
use crate::store::FieldNode;
use crate::store::StackNode;
use crate::store::SyntaxNode;
use crate::store::ValueNode;
use crate::store::spelling::spells_value;
use crate::store::FlatArena;
use crate::store::ValueNodeId;
use crate::store::NESTING_LIMIT;
use crate::syntax::names_equal;
use crate::syntax::Branch;
use crate::syntax::FieldValue;
use crate::syntax::OpClause;
use crate::syntax::Comp;
use crate::syntax::NumLit;
use crate::syntax::Side;
use crate::syntax::Stack;
use crate::syntax::Value;
use crate::types::EffectOp;
use crate::types::FieldType;
use crate::types::CompType;
use crate::types::DataId;
use crate::types::EffectRow;
use crate::types::EffectSig;
use crate::types::Grade;
use crate::types::SealId;
use crate::types::ValueType;

verus! {

/// One token in a canonical key's stream.
#[derive(Clone, Copy, Debug, PartialEq, Eq, Hash, Structural)]
pub struct CanonicalToken(pub u64);

/// A term's full structural content in canonical binder form.
#[derive(Clone, Debug, PartialEq, Eq, Hash)]
pub struct CanonicalKey(Vec<CanonicalToken>);

/// The tag of a bound variable occurrence; its de Bruijn index follows.
pub const TAG_BOUND: u64 = 1;

/// The tag of a free variable occurrence; its name follows.
pub const TAG_FREE: u64 = 2;

/// The tag closing a name's bytes.
pub const TAG_NAME_END: u64 = 3;

/// The tag standing for a node the store could not resolve.
pub const TAG_MISSING: u64 = 4;

/// The tag standing for a subterm nested past the nesting budget.
pub const TAG_TOO_DEEP: u64 = 5;

/// The base of the value-node tag block.
pub const TAG_VALUE: u64 = 0x1000;

/// The base of the computation-node tag block.
pub const TAG_COMP: u64 = 0x2000;

/// The base of the stack-node tag block.
pub const TAG_STACK: u64 = 0x3000;

/// The base of the value-type tag block.
pub const TAG_VALUE_TYPE: u64 = 0x4000;

/// The base of the computation-type tag block.
pub const TAG_COMP_TYPE: u64 = 0x5000;

/// The tag of a payload word folded in verbatim.
pub const TAG_WORD: u64 = 0x6000;

/// The seed a key's digest starts from.
pub const DIGEST_SEED: u64 = 0x4b45_5900;

/// The digest of a token stream: each token folded into the seeded hash in
/// order.
pub open spec fn digest_of(tokens: Seq<CanonicalToken>) -> u64
    decreases tokens.len(),
{
    if tokens.len() == 0 {
        mix_spec(FNV_OFFSET, DIGEST_SEED)
    } else {
        mix_spec(digest_of(tokens.drop_last()), tokens.last().0)
    }
}

impl View for CanonicalKey {
    type V = Seq<CanonicalToken>;

    closed spec fn view(&self) -> Seq<CanonicalToken> {
        self.0@
    }
}

impl CanonicalKey {
    /// The number of tokens in the key.
    pub fn len(&self) -> (n: usize)
        ensures
            n == self@.len(),
    {
        self.0.len()
    }

    /// The key's folded digest.
    pub fn digest(&self) -> (h: u64)
        ensures
            h == digest_of(self@),
    {
        let mut hash = seed(DIGEST_SEED);
        let mut index: usize = 0;
        while index < self.0.len()
            invariant
                index <= self.0@.len(),
                hash == digest_of(self.0@.subrange(0, index as int)),
            decreases self.0@.len() - index,
        {
            proof {
                assert(self.0@.subrange(0, index + 1).drop_last() =~= self.0@.subrange(
                    0,
                    index as int,
                ));
                assert(self.0@.subrange(0, index + 1).last() == self.0@[index as int]);
            }
            hash = mix_word(hash, self.0[index].0);
            index = index + 1;
        }
        proof {
            assert(self.0@.subrange(0, self.0@.len() as int) =~= self.0@);
        }
        hash
    }

    /// Whether two keys are the same token stream.
    pub fn same(&self, other: &CanonicalKey) -> (b: bool)
        ensures
            b == (self@ == other@),
    {
        if self.0.len() != other.0.len() {
            return false;
        }
        let mut index: usize = 0;
        while index < self.0.len()
            invariant
                index <= self.0@.len(),
                self.0@.len() == other.0@.len(),
                forall|j: int| 0 <= j < index ==> self.0@[j] == other.0@[j],
            decreases self.0@.len() - index,
        {
            if self.0[index] != other.0[index] {
                return false;
            }
            index = index + 1;
        }
        assert(self.0@ =~= other.0@);
        true
    }
}

/// Which differential face a term belongs to.
#[derive(Clone, Copy, Debug, PartialEq, Eq, Hash, Structural)]
pub enum Face {
    /// A term the elaborator handed the normalizer.
    ElaborationInput,
    /// A normal form readback produced.
    ReadbackNormalForm,
}

/// One interned representative under its key.
#[derive(Clone, Debug)]
pub struct Entry {
    /// The representative's canonical key.
    pub key: CanonicalKey,
    /// The representative node.
    pub node: ValueNodeId,
}

/// The position of the entry carrying `key`, if one does.
pub open spec fn find_key(table: Seq<(Seq<CanonicalToken>, ValueNodeId)>, key: Seq<CanonicalToken>) -> Option<int>
    decreases table.len(),
{
    if table.len() == 0 {
        None
    } else if table.last().0 == key {
        Some(table.len() - 1)
    } else {
        find_key(table.drop_last(), key)
    }
}

/// One interning step on a table: the representative `key` already has, or
/// `node` appended as the new representative.
pub open spec fn intern_step(
    table: Seq<(Seq<CanonicalToken>, ValueNodeId)>,
    key: Seq<CanonicalToken>,
    node: ValueNodeId,
) -> (Seq<(Seq<CanonicalToken>, ValueNodeId)>, ValueNodeId) {
    match find_key(table, key) {
        Some(index) => (table, table[index].1),
        None => (table.push((key, node)), node),
    }
}

/// The table after interning `keys` in order, each with the matching node of
/// `nodes`, starting from `table`.
pub open spec fn intern_all(
    table: Seq<(Seq<CanonicalToken>, ValueNodeId)>,
    keys: Seq<Seq<CanonicalToken>>,
    nodes: Seq<ValueNodeId>,
) -> Seq<(Seq<CanonicalToken>, ValueNodeId)>
    decreases keys.len(),
{
    if keys.len() == 0 || nodes.len() == 0 {
        table
    } else {
        intern_step(intern_all(table, keys.drop_last(), nodes.drop_last()), keys.last(), nodes.last()).0
    }
}

/// The keys of `keys`, each at its first appearance.
pub open spec fn first_appearances(keys: Seq<Seq<CanonicalToken>>) -> Seq<Seq<CanonicalToken>>
    decreases keys.len(),
{
    if keys.len() == 0 {
        Seq::empty()
    } else if keys.drop_last().contains(keys.last()) {
        first_appearances(keys.drop_last())
    } else {
        first_appearances(keys.drop_last()).push(keys.last())
    }
}

/// Interning a run of keys into an empty table keeps one entry per distinct
/// key, in the order the keys first appear; so the table's length is the
/// number of distinct keys (one per alpha-equivalence class of the terms
/// those keys were taken from).
pub proof fn lemma_intern_all_distinct(keys: Seq<Seq<CanonicalToken>>, nodes: Seq<ValueNodeId>)
    requires
        keys.len() == nodes.len(),
    ensures
        intern_all(Seq::empty(), keys, nodes).map_values(
            |entry: (Seq<CanonicalToken>, ValueNodeId)| entry.0,
        ) == first_appearances(keys),
        forall|k: Seq<CanonicalToken>| #[trigger] first_appearances(keys).contains(k) <==> keys.contains(k),
    decreases keys.len(),
{
    if keys.len() > 0 {
        let front = keys.drop_last();
        let last = keys.last();
        lemma_intern_all_distinct(front, nodes.drop_last());
        let table = intern_all(Seq::empty(), front, nodes.drop_last());
        let view = table.map_values(|entry: (Seq<CanonicalToken>, ValueNodeId)| entry.0);
        lemma_find_key(table, last);
        assert forall|k: Seq<CanonicalToken>| front.contains(k) <==> #[trigger] view.contains(k) by {
            assert(view == first_appearances(front));
        }
        if front.contains(last) {
            assert(view.contains(last));
            let j = choose|j: int| 0 <= j < view.len() && view[j] == last;
            assert(table[j].0 == last);
        } else {
            assert(!view.contains(last));
            assert forall|j: int| 0 <= j < table.len() implies (#[trigger] table[j]).0 != last by {
                assert(view[j] == table[j].0);
            }
            assert(find_key(table, last) is None);
            let grown = table.push((last, nodes.last()));
            assert(grown.map_values(|entry: (Seq<CanonicalToken>, ValueNodeId)| entry.0) =~= view.push(last));
        }
        let fa = first_appearances(front);
        let fk = first_appearances(keys);
        assert(keys == front.push(last));
        assert forall|k: Seq<CanonicalToken>| #[trigger] fk.contains(k) <==> keys.contains(k) by {
            assert(keys.contains(k) <==> (front.contains(k) || k == last)) by {
                if keys.contains(k) {
                    let j = choose|j: int| 0 <= j < keys.len() && keys[j] == k;
                    if j < front.len() {
                        assert(front[j] == k);
                    }
                }
                if front.contains(k) {
                    let j = choose|j: int| 0 <= j < front.len() && front[j] == k;
                    assert(keys[j] == k);
                }
                if k == last {
                    assert(keys[keys.len() - 1] == k);
                }
            }
            if !front.contains(last) {
                assert(fk == fa.push(last));
                assert(fk.contains(k) <==> (fa.contains(k) || k == last)) by {
                    if fk.contains(k) {
                        let j = choose|j: int| 0 <= j < fk.len() && fk[j] == k;
                        if j < fa.len() {
                            assert(fa[j] == k);
                        }
                    }
                    if fa.contains(k) {
                        let j = choose|j: int| 0 <= j < fa.len() && fa[j] == k;
                        assert(fk[j] == k);
                    }
                    if k == last {
                        assert(fk[fk.len() - 1] == k);
                    }
                }
            } else {
                assert(fk == fa);
            }
        }
    }
}

/// A found position is in range and carries the key.
pub proof fn lemma_find_key(table: Seq<(Seq<CanonicalToken>, ValueNodeId)>, key: Seq<CanonicalToken>)
    ensures
        match find_key(table, key) {
            Some(index) => 0 <= index < table.len() && table[index].0 == key,
            None => forall|j: int| 0 <= j < table.len() ==> (#[trigger] table[j]).0 != key,
        },
    decreases table.len(),
{
    if table.len() > 0 && table.last().0 != key {
        lemma_find_key(table.drop_last(), key);
        if find_key(table.drop_last(), key) is None {
            assert forall|j: int| 0 <= j < table.len() implies (#[trigger] table[j]).0 != key by {
                if j < table.len() - 1 {
                    assert(table[j] == table.drop_last()[j]);
                }
            }
        }
    }
}

/// Interning the same key twice gives the first call's representative and
/// adds nothing the second time, whatever node the second call offers.
pub proof fn lemma_intern_dedups(
    table: Seq<(Seq<CanonicalToken>, ValueNodeId)>,
    key: Seq<CanonicalToken>,
    first: ValueNodeId,
    second: ValueNodeId,
)
    ensures
        intern_step(intern_step(table, key, first).0, key, second).1 == intern_step(
            table,
            key,
            first,
        ).1,
        intern_step(intern_step(table, key, first).0, key, second).0 == intern_step(
            table,
            key,
            first,
        ).0,
{
    lemma_find_key(table, key);
    let once = intern_step(table, key, first);
    if find_key(table, key) is None {
        let grown = table.push((key, first));
        assert(grown.last().0 == key);
        assert(find_key(grown, key) == Some(table.len() as int));
    }
}

/// One face's deduplicating table.
#[derive(Clone, Debug)]
pub struct FaceTable {
    /// The representatives, in interning order.
    entries: Vec<Entry>,
}

impl FaceTable {
    /// The table's (key, representative) pairs, in interning order.
    pub closed spec fn view_table(self) -> Seq<(Seq<CanonicalToken>, ValueNodeId)> {
        self.entries@.map_values(|e: Entry| (e.key@, e.node))
    }

    /// An empty table.
    pub fn new() -> (t: FaceTable)
        ensures
            t.view_table().len() == 0,
    {
        FaceTable { entries: Vec::new() }
    }

    /// The number of representatives.
    pub fn len(&self) -> (n: usize)
        ensures
            n == self.view_table().len(),
    {
        self.entries.len()
    }

    /// Returns the representative for `key`, appending `node` as it when the
    /// table holds none.
    pub fn intern(&mut self, key: CanonicalKey, node: ValueNodeId) -> (r: ValueNodeId)
        ensures
            (final(self).view_table(), r) == intern_step(old(self).view_table(), key@, node),
    {
        let ghost table = self.view_table();
        let mut index = self.entries.len();
        proof {
            assert(table.subrange(0, index as int) =~= table);
        }
        while index > 0
            invariant
                index <= self.entries@.len(),
                table == self.view_table(),
                self.entries == old(self).entries,
                find_key(table.subrange(0, index as int), key@) == find_key(table, key@),
            decreases index,
        {
            let ghost prefix = table.subrange(0, index as int);
            if self.entries[index - 1].key.same(&key) {
                assert(prefix.last() == table[index - 1]);
                return self.entries[index - 1].node;
            }
            assert(prefix.drop_last() =~= table.subrange(0, index - 1));
            index = index - 1;
        }
        proof {
            assert(table.subrange(0, 0) =~= Seq::<(Seq<CanonicalToken>, ValueNodeId)>::empty());
        }
        self.entries.push(Entry { key, node });
        proof {
            assert(self.view_table() =~= table.push((key@, node)));
        }
        node
    }
}

/// The normalizer's syntax interner: one table per face.
#[derive(Clone, Debug)]
pub struct SyntaxInterner {
    /// The elaboration-input face's table.
    input: FaceTable,
    /// The readback-normal-form face's table.
    readback: FaceTable,
}

impl SyntaxInterner {
    /// One face's (key, representative) pairs, in interning order.
    pub closed spec fn table(self, face: Face) -> Seq<(Seq<CanonicalToken>, ValueNodeId)> {
        match face {
            Face::ElaborationInput => self.input.view_table(),
            Face::ReadbackNormalForm => self.readback.view_table(),
        }
    }

    /// An interner with both faces empty.
    pub fn new() -> (i: SyntaxInterner)
        ensures
            i.table(Face::ElaborationInput).len() == 0,
            i.table(Face::ReadbackNormalForm).len() == 0,
    {
        SyntaxInterner { input: FaceTable::new(), readback: FaceTable::new() }
    }

    /// The number of representatives in one face's table.
    pub fn len(&self, face: Face) -> (n: usize)
        ensures
            n == self.table(face).len(),
    {
        match face {
            Face::ElaborationInput => self.input.len(),
            Face::ReadbackNormalForm => self.readback.len(),
        }
    }

    /// Whether one face's table is empty.
    pub fn is_empty(&self, face: Face) -> (b: bool)
        ensures
            b == (self.table(face).len() == 0),
    {
        self.len(face) == 0
    }

    /// Interns `node` under `key` into `face`'s table and returns that
    /// face's representative; the other face's table is untouched.
    pub fn intern_key(&mut self, face: Face, key: CanonicalKey, node: ValueNodeId) -> (r:
        ValueNodeId)
        ensures
            (final(self).table(face), r) == intern_step(old(self).table(face), key@, node),
            forall|other: Face| other != face ==> final(self).table(other) == old(self).table(
                other,
            ),
    {
        match face {
            Face::ElaborationInput => self.input.intern(key, node),
            Face::ReadbackNormalForm => self.readback.intern(key, node),
        }
    }

    /// Interns `node` into `face`'s table under its canonical key and returns
    /// that face's representative; the other face's table is untouched.
    pub fn intern(&mut self, syntax: &FlatArena, face: Face, node: ValueNodeId) -> (r: ValueNodeId)
        requires
            syntax.wf(),
        ensures
            forall|t: Value| #[trigger]
                spells_value(syntax.nodes(), node.0, t) ==> (final(self).table(face), r)
                    == intern_step(old(self).table(face), term_tokens(t), node),
            !(exists|t: Value| spells_value(syntax.nodes(), node.0, t)) ==> (
            final(self).table(face),
            r,
            ) == intern_step(old(self).table(face), word(TAG_MISSING), node),
            forall|other: Face| other != face ==> final(self).table(other) == old(self).table(
                other,
            ),
            final(self).table(face).len() >= old(self).table(face).len(),
    {
        let key = canonical_key(syntax, node);
        let r = self.intern_key(face, key, node);
        r
    }
}

/// The code a native primitive contributes to a key.
pub open spec fn prim_code_of(prim: NativePrim) -> u64 {
    match prim {
        NativePrim::Id => 0,
        NativePrim::Const => 1,
        NativePrim::Add => 2,
        NativePrim::Sub => 3,
        NativePrim::Mul => 4,
        NativePrim::Eq => 5,
        NativePrim::Ne => 6,
        NativePrim::Lt => 7,
        NativePrim::Le => 8,
        NativePrim::Gt => 9,
        NativePrim::Ge => 10,
        NativePrim::And => 11,
        NativePrim::Or => 12,
        NativePrim::Neg => 13,
        NativePrim::ListConcat => 14,
        NativePrim::Each => 15,
        NativePrim::Where => 16,
        NativePrim::Reduce => 17,
        NativePrim::Any => 18,
        NativePrim::All => 19,
        NativePrim::Flatten => 20,
        NativePrim::Uniq => 21,
        NativePrim::Sort => 22,
        NativePrim::Get => 23,
        NativePrim::Insert => 24,
        NativePrim::RecordUpdate => 25,
        NativePrim::SetIndex => 26,
        NativePrim::UpdateAt => 27,
        NativePrim::InsertAt => 28,
        NativePrim::RemoveAt => 29,
        NativePrim::Push => 30,
        NativePrim::UpdateWhere => 31,
        NativePrim::StringEscape => 32,
        NativePrim::StringContains => 33,
        NativePrim::StringStartsWith => 34,
        NativePrim::StringEndsWith => 35,
        NativePrim::StringEq => 36,
        NativePrim::StringSplit => 37,
        NativePrim::RegexExtract => 38,
        NativePrim::PathJoin => 39,
        NativePrim::PathBasename => 40,
        NativePrim::PathExtension => 41,
    }
}

/// The code a native primitive contributes to a key.
pub fn prim_code(prim: NativePrim) -> (code: u64)
    ensures
        code < 64,
        code == prim_code_of(prim),
{
    match prim {
        NativePrim::Id => 0,
        NativePrim::Const => 1,
        NativePrim::Add => 2,
        NativePrim::Sub => 3,
        NativePrim::Mul => 4,
        NativePrim::Eq => 5,
        NativePrim::Ne => 6,
        NativePrim::Lt => 7,
        NativePrim::Le => 8,
        NativePrim::Gt => 9,
        NativePrim::Ge => 10,
        NativePrim::And => 11,
        NativePrim::Or => 12,
        NativePrim::Neg => 13,
        NativePrim::ListConcat => 14,
        NativePrim::Each => 15,
        NativePrim::Where => 16,
        NativePrim::Reduce => 17,
        NativePrim::Any => 18,
        NativePrim::All => 19,
        NativePrim::Flatten => 20,
        NativePrim::Uniq => 21,
        NativePrim::Sort => 22,
        NativePrim::Get => 23,
        NativePrim::Insert => 24,
        NativePrim::RecordUpdate => 25,
        NativePrim::SetIndex => 26,
        NativePrim::UpdateAt => 27,
        NativePrim::InsertAt => 28,
        NativePrim::RemoveAt => 29,
        NativePrim::Push => 30,
        NativePrim::UpdateWhere => 31,
        NativePrim::StringEscape => 32,
        NativePrim::StringContains => 33,
        NativePrim::StringStartsWith => 34,
        NativePrim::StringEndsWith => 35,
        NativePrim::StringEq => 36,
        NativePrim::StringSplit => 37,
        NativePrim::RegexExtract => 38,
        NativePrim::PathJoin => 39,
        NativePrim::PathBasename => 40,
        NativePrim::PathExtension => 41,
    }
}

/// A single token.
pub open spec fn word(w: u64) -> Seq<CanonicalToken> {
    seq![CanonicalToken(w)]
}

/// A payload word: its marker, then the word.
pub open spec fn payload_tokens(w: u64) -> Seq<CanonicalToken> {
    seq![CanonicalToken(TAG_WORD), CanonicalToken(w)]
}

/// A name: its UTF-8 bytes, one token each, then the terminator.
pub open spec fn name_tokens(text: Seq<char>) -> Seq<CanonicalToken> {
    encode_utf8(text).map_values(|b: u8| CanonicalToken(b as u64)).push(CanonicalToken(TAG_NAME_END))
}

/// A numeric literal: its width tag, then its bits.
pub open spec fn num_tokens(literal: NumLit) -> Seq<CanonicalToken> {
    match literal {
        NumLit::U32(n) => payload_tokens(0) + payload_tokens(n as u64),
        NumLit::U64(n) => payload_tokens(1) + payload_tokens(n),
        NumLit::I32(n) => payload_tokens(2) + payload_tokens(n as u64),
        NumLit::I64(n) => payload_tokens(3) + payload_tokens(n as u64),
        NumLit::F32(bits) => payload_tokens(4) + payload_tokens(bits as u64),
        NumLit::F64(bits) => payload_tokens(5) + payload_tokens(bits),
    }
}

/// A side.
pub open spec fn side_tokens(side: Side) -> Seq<CanonicalToken> {
    match side {
        Side::Fst => payload_tokens(0),
        Side::Snd => payload_tokens(1),
    }
}

/// A grade: a finite bound, or the word past every bound for `ω`.
pub open spec fn grade_tokens(grade: Grade) -> Seq<CanonicalToken> {
    match grade {
        Grade::Fin(bound) => payload_tokens(bound as u64),
        Grade::Omega => payload_tokens(0x1_0000_0000),
    }
}

/// A declared datatype's identity.
pub open spec fn data_tokens(id: DataId) -> Seq<CanonicalToken> {
    payload_tokens(id.serial) + name_tokens(id.name@)
}

/// A sealed component's identity.
pub open spec fn seal_tokens(id: SealId) -> Seq<CanonicalToken> {
    payload_tokens(id.serial) + name_tokens(id.declaration@) + name_tokens(id.component@)
}

/// A run of labels, each as a name.
pub open spec fn labels_tokens(labels: Seq<String>) -> Seq<CanonicalToken>
    decreases labels.len(),
{
    if labels.len() == 0 {
        Seq::empty()
    } else {
        labels_tokens(labels.drop_last()) + name_tokens(labels.last()@)
    }
}

/// An effect row: its label count, then each label.
pub open spec fn row_tokens(row: EffectRow) -> Seq<CanonicalToken> {
    payload_tokens(row.labels@.len() as u64) + labels_tokens(row.labels@)
}

/// The de Bruijn index of `text` in `scope`, innermost binder first.
pub open spec fn bound_position(scope: Seq<String>, text: Seq<char>) -> Option<nat>
    decreases scope.len(),
{
    if scope.len() == 0 {
        None
    } else if scope.last()@ == text {
        Some(0)
    } else {
        match bound_position(scope.drop_last(), text) {
            Some(i) => Some(i + 1),
            None => None,
        }
    }
}

/// The tokens of one value under the binders of `scope`, with `depth` levels
/// of nesting left before the stream says the term was too deep.
pub open spec fn value_tokens(v: Value, scope: Seq<String>, depth: nat) -> Seq<CanonicalToken>
    decreases depth, 2nat, 0nat,
{
    if depth == 0 {
        word(TAG_TOO_DEEP)
    } else {
        let below = (depth - 1) as nat;
        match v {
            Value::Var(text) => match bound_position(scope, text@) {
                Some(i) => word(TAG_BOUND) + payload_tokens(i as u64),
                None => word(TAG_FREE) + name_tokens(text@),
            },
            Value::Unit => word(TAG_VALUE),
            Value::Int(literal) => word((TAG_VALUE + 1) as u64) + payload_tokens(literal as u64),
            Value::Str(literal) => word((TAG_VALUE + 2) as u64) + name_tokens(literal@),
            Value::Num(literal) => word((TAG_VALUE + 3) as u64) + num_tokens(literal),
            Value::Pair(fst, snd) => word((TAG_VALUE + 4) as u64) + value_tokens(*fst, scope, below)
                + value_tokens(*snd, scope, below),
            Value::Inj(side, carried) => word((TAG_VALUE + 5) as u64) + side_tokens(side)
                + value_tokens(*carried, scope, below),
            Value::List(elements) => word((TAG_VALUE + 6) as u64) + payload_tokens(
                elements@.len() as u64,
            ) + values_tokens(elements@, scope, below),
            Value::Record(fields) => word((TAG_VALUE + 7) as u64) + payload_tokens(
                fields@.len() as u64,
            ) + fields_tokens(fields@, scope, below),
            Value::Thunk(grade, body) => word((TAG_VALUE + 8) as u64) + grade_tokens(grade)
                + comp_tokens(*body, scope, below),
            Value::Annot(inner, ty) => word((TAG_VALUE + 9) as u64) + value_tokens(
                *inner,
                scope,
                below,
            ) + value_type_tokens(*ty, scope, below),
            Value::Hole(hole) => word((TAG_VALUE + 10) as u64) + payload_tokens(hole),
            Value::Stk(stack) => word((TAG_VALUE + 11) as u64) + stack_tokens(*stack, scope, below),
            Value::Here(witness) => word((TAG_VALUE + 12) as u64) + value_tokens(
                *witness,
                scope,
                below,
            ),
            Value::Ctor { id, tag, payload: carried } => word((TAG_VALUE + 13) as u64)
                + data_tokens(id) + payload_tokens(tag as u64) + value_tokens(*carried, scope, below),
        }
    }
}

/// The tokens of each value of `items`, in order.
pub open spec fn values_tokens(items: Seq<Rc<Value>>, scope: Seq<String>, depth: nat) -> Seq<CanonicalToken>
    decreases depth, 3nat, items.len(),
{
    if items.len() == 0 {
        Seq::empty()
    } else {
        values_tokens(items.drop_last(), scope, depth) + value_tokens(*items.last(), scope, depth)
    }
}

/// The tokens of each field of a record, its label then its value.
pub open spec fn fields_tokens(fields: Seq<FieldValue>, scope: Seq<String>, depth: nat) -> Seq<CanonicalToken>
    decreases depth, 3nat, fields.len(),
{
    if fields.len() == 0 {
        Seq::empty()
    } else {
        fields_tokens(fields.drop_last(), scope, depth) + name_tokens(fields.last().label@)
            + value_tokens(*fields.last().value, scope, depth)
    }
}

/// The tokens of each arm of a data elimination, under its binder.
pub open spec fn arms_tokens(arms: Seq<Branch>, scope: Seq<String>, depth: nat) -> Seq<CanonicalToken>
    decreases depth, 3nat, arms.len(),
{
    if arms.len() == 0 {
        Seq::empty()
    } else {
        arms_tokens(arms.drop_last(), scope, depth) + comp_tokens(
            *arms.last().body,
            scope.push(arms.last().binder),
            depth,
        )
    }
}

/// The tokens of each operation clause of a handler: its operation, then its
/// body under the payload and resumption binders.
pub open spec fn clauses_tokens(ops: Seq<OpClause>, scope: Seq<String>, depth: nat) -> Seq<CanonicalToken>
    decreases depth, 3nat, ops.len(),
{
    if ops.len() == 0 {
        Seq::empty()
    } else {
        clauses_tokens(ops.drop_last(), scope, depth) + name_tokens(ops.last().op@) + comp_tokens(
            *ops.last().body,
            scope.push(ops.last().payload).push(ops.last().resume),
            depth,
        )
    }
}

/// The tokens of each operation of an effect signature: its name and types.
pub open spec fn sig_ops_tokens(ops: Seq<EffectOp>, scope: Seq<String>, depth: nat) -> Seq<CanonicalToken>
    decreases depth, 3nat, ops.len(),
{
    if ops.len() == 0 {
        Seq::empty()
    } else {
        sig_ops_tokens(ops.drop_last(), scope, depth) + name_tokens(ops.last().name@)
            + value_type_tokens(*ops.last().param, scope, depth) + value_type_tokens(
            *ops.last().result,
            scope,
            depth,
        )
    }
}

/// The tokens of an effect signature: its name, its operation count, and
/// each operation.
pub open spec fn sig_tokens(sig: EffectSig, scope: Seq<String>, depth: nat) -> Seq<CanonicalToken>
    decreases depth, 4nat, 0nat,
{
    name_tokens(sig.name@) + payload_tokens(sig.ops@.len() as u64) + sig_ops_tokens(
        sig.ops@,
        scope,
        depth,
    )
}

/// The tokens of one computation; see [`value_tokens`].
pub open spec fn comp_tokens(c: Comp, scope: Seq<String>, depth: nat) -> Seq<CanonicalToken>
    decreases depth, 2nat, 0nat,
{
    if depth == 0 {
        word(TAG_TOO_DEEP)
    } else {
        let below = (depth - 1) as nat;
        match c {
            Comp::Abs(binder, _, body) => word(TAG_COMP) + comp_tokens(*body, scope.push(binder), below),
            Comp::App(head, arg) => word((TAG_COMP + 1) as u64) + comp_tokens(*head, scope, below)
                + value_tokens(*arg, scope, below),
            Comp::Ret(value) => word((TAG_COMP + 2) as u64) + value_tokens(*value, scope, below),
            Comp::Bind(bound, binder, cont) => word((TAG_COMP + 3) as u64) + comp_tokens(
                *bound,
                scope,
                below,
            ) + comp_tokens(*cont, scope.push(binder), below),
            Comp::Force(value) => word((TAG_COMP + 4) as u64) + value_tokens(*value, scope, below),
            Comp::Case(scrut, left, right) => word((TAG_COMP + 5) as u64) + value_tokens(
                *scrut,
                scope,
                below,
            ) + comp_tokens(*left.body, scope.push(left.binder), below) + comp_tokens(
                *right.body,
                scope.push(right.binder),
                below,
            ),
            Comp::DataCase(scrut, arms) => word((TAG_COMP + 6) as u64) + payload_tokens(
                arms@.len() as u64,
            ) + value_tokens(*scrut, scope, below) + arms_tokens(arms@, scope, below),
            Comp::ListCase { scrut, nil, head, tail, cons } => word((TAG_COMP + 7) as u64)
                + value_tokens(*scrut, scope, below) + comp_tokens(*nil, scope, below) + comp_tokens(
                *cons,
                scope.push(head).push(tail),
                below,
            ),
            Comp::Split { scrut, fst_name, snd_name, body, .. } => word((TAG_COMP + 8) as u64)
                + value_tokens(*scrut, scope, below) + comp_tokens(
                *body,
                scope.push(fst_name).push(snd_name),
                below,
            ),
            Comp::RecordProj { record, label } => word((TAG_COMP + 9) as u64) + name_tokens(label@)
                + value_tokens(*record, scope, below),
            Comp::With(fst, snd) => word((TAG_COMP + 10) as u64) + comp_tokens(*fst, scope, below)
                + comp_tokens(*snd, scope, below),
            Comp::Prj(side, body) => word((TAG_COMP + 11) as u64) + side_tokens(side) + comp_tokens(
                *body,
                scope,
                below,
            ),
            Comp::Dup(value) => word((TAG_COMP + 12) as u64) + value_tokens(*value, scope, below),
            Comp::Drop(value) => word((TAG_COMP + 13) as u64) + value_tokens(*value, scope, below),
            Comp::Perform(sig, op, carried) => word((TAG_COMP + 14) as u64) + sig_tokens(
                *sig,
                scope,
                below,
            ) + name_tokens(op@) + value_tokens(*carried, scope, below),
            Comp::Handle { sig, scrutinee, ret, ops } => word((TAG_COMP + 15) as u64) + sig_tokens(
                *sig,
                scope,
                below,
            ) + payload_tokens(ops@.len() as u64) + comp_tokens(*scrutinee, scope, below)
                + comp_tokens(*ret.body, scope.push(ret.binder), below) + clauses_tokens(
                ops@,
                scope,
                below,
            ),
            Comp::Resume(value, body) => word((TAG_COMP + 16) as u64) + value_tokens(
                *value,
                scope,
                below,
            ) + comp_tokens(*body, scope, below),
            Comp::Reset(body) => word((TAG_COMP + 17) as u64) + comp_tokens(*body, scope, below),
            Comp::Shift(binder, body) => word((TAG_COMP + 18) as u64) + comp_tokens(
                *body,
                scope.push(binder),
                below,
            ),
            Comp::Hole(hole) => word((TAG_COMP + 19) as u64) + payload_tokens(hole),
            Comp::Native { prim, args } => word((TAG_COMP + 20) as u64) + payload_tokens(
                prim_code_of(prim),
            ) + payload_tokens(args@.len() as u64) + values_tokens(args@, scope, below),
            Comp::Walk { scrut, base, .. } => word((TAG_COMP + 21) as u64) + value_tokens(
                *scrut,
                scope,
                below,
            ) + comp_tokens(*base.body, scope.push(base.x), below),
        }
    }
}

/// The tokens of one stack; see [`value_tokens`].
pub open spec fn stack_tokens(s: Stack, scope: Seq<String>, depth: nat) -> Seq<CanonicalToken>
    decreases depth, 2nat, 0nat,
{
    if depth == 0 {
        word(TAG_TOO_DEEP)
    } else {
        let below = (depth - 1) as nat;
        match s {
            Stack::Empty => word(TAG_STACK),
            Stack::Arg(arg, rest) => word((TAG_STACK + 1) as u64) + value_tokens(*arg, scope, below)
                + stack_tokens(*rest, scope, below),
            Stack::Bind(binder, body, rest) => word((TAG_STACK + 2) as u64) + comp_tokens(
                *body,
                scope.push(binder),
                below,
            ) + stack_tokens(*rest, scope, below),
            Stack::Prj(side, rest) => word((TAG_STACK + 3) as u64) + side_tokens(side)
                + stack_tokens(*rest, scope, below),
        }
    }
}

/// The tokens of each labelled field type.
pub open spec fn field_types_tokens(fields: Seq<FieldType>, scope: Seq<String>, depth: nat) -> Seq<CanonicalToken>
    decreases depth, 3nat, fields.len(),
{
    if fields.len() == 0 {
        Seq::empty()
    } else {
        field_types_tokens(fields.drop_last(), scope, depth) + name_tokens(fields.last().label@)
            + value_type_tokens(*fields.last().ty, scope, depth)
    }
}

/// The tokens of each value type of `items`, in order.
pub open spec fn value_types_tokens(items: Seq<Rc<ValueType>>, scope: Seq<String>, depth: nat) -> Seq<CanonicalToken>
    decreases depth, 3nat, items.len(),
{
    if items.len() == 0 {
        Seq::empty()
    } else {
        value_types_tokens(items.drop_last(), scope, depth) + value_type_tokens(
            *items.last(),
            scope,
            depth,
        )
    }
}

/// The tokens of one value type; see [`value_tokens`].
pub open spec fn value_type_tokens(ty: ValueType, scope: Seq<String>, depth: nat) -> Seq<CanonicalToken>
    decreases depth, 2nat, 0nat,
{
    if depth == 0 {
        word(TAG_TOO_DEEP)
    } else {
        let below = (depth - 1) as nat;
        match ty {
            ValueType::Atom(text) => word(TAG_VALUE_TYPE) + name_tokens(text@),
            ValueType::Unit => word((TAG_VALUE_TYPE + 1) as u64),
            ValueType::Prod(fst, snd) => word((TAG_VALUE_TYPE + 2) as u64) + value_type_tokens(
                *fst,
                scope,
                below,
            ) + value_type_tokens(*snd, scope, below),
            ValueType::Sum(lhs, rhs) => word((TAG_VALUE_TYPE + 3) as u64) + value_type_tokens(
                *lhs,
                scope,
                below,
            ) + value_type_tokens(*rhs, scope, below),
            ValueType::List(element) => word((TAG_VALUE_TYPE + 4) as u64) + value_type_tokens(
                *element,
                scope,
                below,
            ),
            ValueType::Record(fields) => word((TAG_VALUE_TYPE + 5) as u64) + payload_tokens(
                fields@.len() as u64,
            ) + field_types_tokens(fields@, scope, below),
            ValueType::Thunk(grade, body) => word((TAG_VALUE_TYPE + 6) as u64) + grade_tokens(grade)
                + comp_type_tokens(*body, scope, below),
            ValueType::Stk(consumes, delivers) => word((TAG_VALUE_TYPE + 7) as u64)
                + comp_type_tokens(*consumes, scope, below) + comp_type_tokens(
                *delivers,
                scope,
                below,
            ),
            ValueType::Path { ty: carrier, lhs, rhs } => word((TAG_VALUE_TYPE + 8) as u64)
                + value_type_tokens(*carrier, scope, below) + value_tokens(*lhs, scope, below)
                + value_tokens(*rhs, scope, below),
            ValueType::Data { id, args } => word((TAG_VALUE_TYPE + 9) as u64) + data_tokens(id)
                + payload_tokens(args@.len() as u64) + value_types_tokens(args@, scope, below),
            ValueType::Universe => word((TAG_VALUE_TYPE + 10) as u64),
            ValueType::Sigma { fst, binder, snd } => word((TAG_VALUE_TYPE + 11) as u64)
                + value_type_tokens(*fst, scope, below) + value_type_tokens(
                *snd,
                scope.push(binder),
                below,
            ),
            ValueType::Sealed(id) => word((TAG_VALUE_TYPE + 12) as u64) + seal_tokens(id),
            ValueType::Unknown => word((TAG_VALUE_TYPE + 13) as u64),
        }
    }
}

/// The tokens of one computation type; see [`value_tokens`].
pub open spec fn comp_type_tokens(ty: CompType, scope: Seq<String>, depth: nat) -> Seq<CanonicalToken>
    decreases depth, 2nat, 0nat,
{
    if depth == 0 {
        word(TAG_TOO_DEEP)
    } else {
        let below = (depth - 1) as nat;
        match ty {
            CompType::F(of, row) => word(TAG_COMP_TYPE) + row_tokens(*row) + value_type_tokens(
                *of,
                scope,
                below,
            ),
            CompType::Arrow(arg, res) => word((TAG_COMP_TYPE + 1) as u64) + value_type_tokens(
                *arg,
                scope,
                below,
            ) + comp_type_tokens(*res, scope, below),
            CompType::With(fst, snd) => word((TAG_COMP_TYPE + 2) as u64) + comp_type_tokens(
                *fst,
                scope,
                below,
            ) + comp_type_tokens(*snd, scope, below),
            CompType::Unknown => word((TAG_COMP_TYPE + 3) as u64),
        }
    }
}

/// The canonical token stream of an ordinary term: its full structural
/// content in canonical binder form, with no binder in scope.
pub open spec fn term_tokens(term: Value) -> Seq<CanonicalToken> {
    value_tokens(term, Seq::empty(), NESTING_LIMIT as nat)
}

/// Two values spelled by one node have one token stream.
pub proof fn lemma_value_tokens_agree(
    nodes: Seq<SyntaxNode>,
    id: u32,
    a: Value,
    b: Value,
    scope: Seq<String>,
    depth: nat,
)
    requires
        spells_value(nodes, id, a),
        spells_value(nodes, id, b),
    ensures
        value_tokens(a, scope, depth) == value_tokens(b, scope, depth),
    decreases id, 2nat, 0nat,
{
    if depth > 0 {
        let below = (depth - 1) as nat;
        let node = nodes[id as int]->Value_0;
        lemma_value_children_spelled(nodes, node, id as int, a);
        lemma_value_children_spelled(nodes, node, id as int, b);
        match node {
            ValueNode::Pair(x, y) => {
                lemma_value_tokens_agree(nodes, x.0, pointee(a->Pair_0), pointee(b->Pair_0), scope, below);
                lemma_value_tokens_agree(nodes, y.0, pointee(a->Pair_1), pointee(b->Pair_1), scope, below);
            },
            ValueNode::Inj(_, x) => {
                lemma_value_tokens_agree(nodes, x.0, pointee(a->Inj_1), pointee(b->Inj_1), scope, below);
            },
            ValueNode::List(items) => {
                lemma_values_tokens_agree(nodes, id as int, items@, a->List_0@, b->List_0@, scope, below);
            },
            ValueNode::Record(fields) => {
                lemma_fields_tokens_agree(nodes, id as int, fields@, a->Record_0@, b->Record_0@, scope, below);
            },
            ValueNode::Thunk(_, body) => {
                lemma_comp_tokens_agree(nodes, body.0, pointee(a->Thunk_1), pointee(b->Thunk_1), scope, below);
            },
            ValueNode::Annot(x, _) => {
                lemma_value_tokens_agree(nodes, x.0, pointee(a->Annot_0), pointee(b->Annot_0), scope, below);
            },
            ValueNode::Stk(st) => {
                lemma_stack_tokens_agree(nodes, st.0, pointee(a->Stk_0), pointee(b->Stk_0), scope, below);
            },
            ValueNode::Here(x) => {
                lemma_value_tokens_agree(nodes, x.0, pointee(a->Here_0), pointee(b->Here_0), scope, below);
            },
            ValueNode::Ctor { payload, .. } => {
                lemma_value_tokens_agree(nodes, payload.0, pointee(a->Ctor_payload), pointee(b->Ctor_payload), scope, below);
            },
            _ => {},
        }
    }
}

/// Two runs of values spelled by one run of handles have one token stream.
pub proof fn lemma_values_tokens_agree(
    nodes: Seq<SyntaxNode>,
    parent: int,
    ids: Seq<ValueNodeId>,
    xs: Seq<Rc<Value>>,
    ys: Seq<Rc<Value>>,
    scope: Seq<String>,
    depth: nat,
)
    requires
        spells_values(nodes, parent, ids, xs),
        spells_values(nodes, parent, ids, ys),
    ensures
        values_tokens(xs, scope, depth) == values_tokens(ys, scope, depth),
    decreases parent, 1nat, ids.len(),
{
    if ids.len() > 0 {
        lemma_values_tokens_agree(nodes, parent, ids.drop_last(), xs.drop_last(), ys.drop_last(), scope, depth);
        lemma_value_tokens_agree(nodes, ids.last().0, pointee(xs.last()), pointee(ys.last()), scope, depth);
    }
}

/// Two runs of fields spelled by one run of field nodes have one token
/// stream.
pub proof fn lemma_fields_tokens_agree(
    nodes: Seq<SyntaxNode>,
    parent: int,
    fs: Seq<FieldNode>,
    xs: Seq<FieldValue>,
    ys: Seq<FieldValue>,
    scope: Seq<String>,
    depth: nat,
)
    requires
        spells_fields(nodes, parent, fs, xs),
        spells_fields(nodes, parent, fs, ys),
    ensures
        fields_tokens(xs, scope, depth) == fields_tokens(ys, scope, depth),
    decreases parent, 1nat, fs.len(),
{
    if fs.len() > 0 {
        lemma_fields_tokens_agree(nodes, parent, fs.drop_last(), xs.drop_last(), ys.drop_last(), scope, depth);
        lemma_value_tokens_agree(nodes, fs.last().value.0, pointee(xs.last().value), pointee(ys.last().value), scope, depth);
    }
}

/// Two branches spelled by one branch node have one token stream.
pub proof fn lemma_branch_tokens_agree(
    nodes: Seq<SyntaxNode>,
    parent: int,
    node: BranchNode,
    x: Branch,
    y: Branch,
    scope: Seq<String>,
    depth: nat,
)
    requires
        spells_branch(nodes, parent, node, x),
        spells_branch(nodes, parent, node, y),
    ensures
        x.binder == y.binder,
        comp_tokens(*x.body, scope.push(x.binder), depth) == comp_tokens(*y.body, scope.push(y.binder), depth),
    decreases parent, 1nat, 0nat,
{
    lemma_comp_tokens_agree(nodes, node.body.0, pointee(x.body), pointee(y.body), scope.push(x.binder), depth);
}

/// Two runs of branches spelled by one run of branch nodes have one token
/// stream.
pub proof fn lemma_arms_tokens_agree(
    nodes: Seq<SyntaxNode>,
    parent: int,
    arms: Seq<BranchNode>,
    xs: Seq<Branch>,
    ys: Seq<Branch>,
    scope: Seq<String>,
    depth: nat,
)
    requires
        spells_branches(nodes, parent, arms, xs),
        spells_branches(nodes, parent, arms, ys),
    ensures
        arms_tokens(xs, scope, depth) == arms_tokens(ys, scope, depth),
    decreases parent, 1nat, arms.len() + 1,
{
    if arms.len() > 0 {
        lemma_arms_tokens_agree(nodes, parent, arms.drop_last(), xs.drop_last(), ys.drop_last(), scope, depth);
        lemma_branch_tokens_agree(nodes, parent, arms.last(), xs.last(), ys.last(), scope, depth);
    }
}

/// Two runs of clauses spelled by one run of clause nodes have one token
/// stream.
pub proof fn lemma_clauses_tokens_agree(
    nodes: Seq<SyntaxNode>,
    parent: int,
    ops: Seq<ClauseNode>,
    xs: Seq<OpClause>,
    ys: Seq<OpClause>,
    scope: Seq<String>,
    depth: nat,
)
    requires
        spells_clauses(nodes, parent, ops, xs),
        spells_clauses(nodes, parent, ops, ys),
    ensures
        clauses_tokens(xs, scope, depth) == clauses_tokens(ys, scope, depth),
    decreases parent, 1nat, ops.len(),
{
    if ops.len() > 0 {
        lemma_clauses_tokens_agree(nodes, parent, ops.drop_last(), xs.drop_last(), ys.drop_last(), scope, depth);
        let x = xs.last();
        let y = ys.last();
        lemma_comp_tokens_agree(
            nodes,
            ops.last().body.0,
            pointee(x.body),
            pointee(y.body),
            scope.push(x.payload).push(x.resume),
            depth,
        );
    }
}

/// Two computations spelled by one node have one token stream.
pub proof fn lemma_comp_tokens_agree(
    nodes: Seq<SyntaxNode>,
    id: u32,
    a: Comp,
    b: Comp,
    scope: Seq<String>,
    depth: nat,
)
    requires
        spells_comp(nodes, id, a),
        spells_comp(nodes, id, b),
    ensures
        comp_tokens(a, scope, depth) == comp_tokens(b, scope, depth),
    decreases id, 2nat, 0nat,
{
    if depth > 0 {
        let below = (depth - 1) as nat;
        let node = nodes[id as int]->Comp_0;
        lemma_comp_children_spelled(nodes, node, id as int, a);
        lemma_comp_children_spelled(nodes, node, id as int, b);
        match node {
            CompNode::Abs(_, _, body) => {
                lemma_comp_tokens_agree(nodes, body.0, pointee(a->Abs_2), pointee(b->Abs_2), scope.push(a->Abs_0), below);
            },
            CompNode::App(f, x) => {
                lemma_comp_tokens_agree(nodes, f.0, pointee(a->App_0), pointee(b->App_0), scope, below);
                lemma_value_tokens_agree(nodes, x.0, pointee(a->App_1), pointee(b->App_1), scope, below);
            },
            CompNode::Ret(x) => {
                lemma_value_tokens_agree(nodes, x.0, pointee(a->Ret_0), pointee(b->Ret_0), scope, below);
            },
            CompNode::Bind(first, _, cont) => {
                lemma_comp_tokens_agree(nodes, first.0, pointee(a->Bind_0), pointee(b->Bind_0), scope, below);
                lemma_comp_tokens_agree(nodes, cont.0, pointee(a->Bind_2), pointee(b->Bind_2), scope.push(a->Bind_1), below);
            },
            CompNode::Force(x) => {
                lemma_value_tokens_agree(nodes, x.0, pointee(a->Force_0), pointee(b->Force_0), scope, below);
            },
            CompNode::Case(x, left, right) => {
                lemma_value_tokens_agree(nodes, x.0, pointee(a->Case_0), pointee(b->Case_0), scope, below);
                lemma_branch_tokens_agree(nodes, id as int, left, a->Case_1, b->Case_1, scope, below);
                lemma_branch_tokens_agree(nodes, id as int, right, a->Case_2, b->Case_2, scope, below);
            },
            CompNode::DataCase(x, arms) => {
                lemma_value_tokens_agree(nodes, x.0, pointee(a->DataCase_0), pointee(b->DataCase_0), scope, below);
                lemma_arms_tokens_agree(nodes, id as int, arms@, a->DataCase_1@, b->DataCase_1@, scope, below);
            },
            CompNode::ListCase { scrut, nil, cons, .. } => {
                lemma_value_tokens_agree(nodes, scrut.0, pointee(a->ListCase_scrut), pointee(b->ListCase_scrut), scope, below);
                lemma_comp_tokens_agree(nodes, nil.0, pointee(a->ListCase_nil), pointee(b->ListCase_nil), scope, below);
                lemma_comp_tokens_agree(
                    nodes,
                    cons.0,
                    pointee(a->ListCase_cons),
                    pointee(b->ListCase_cons),
                    scope.push(a->ListCase_head).push(a->ListCase_tail),
                    below,
                );
            },
            CompNode::Split { scrut, body, .. } => {
                lemma_value_tokens_agree(nodes, scrut.0, pointee(a->Split_scrut), pointee(b->Split_scrut), scope, below);
                lemma_comp_tokens_agree(
                    nodes,
                    body.0,
                    pointee(a->Split_body),
                    pointee(b->Split_body),
                    scope.push(a->Split_fst_name).push(a->Split_snd_name),
                    below,
                );
            },
            CompNode::RecordProj { record, .. } => {
                lemma_value_tokens_agree(nodes, record.0, pointee(a->RecordProj_record), pointee(b->RecordProj_record), scope, below);
            },
            CompNode::With(x, y) => {
                lemma_comp_tokens_agree(nodes, x.0, pointee(a->With_0), pointee(b->With_0), scope, below);
                lemma_comp_tokens_agree(nodes, y.0, pointee(a->With_1), pointee(b->With_1), scope, below);
            },
            CompNode::Prj(_, x) => {
                lemma_comp_tokens_agree(nodes, x.0, pointee(a->Prj_1), pointee(b->Prj_1), scope, below);
            },
            CompNode::Dup(x) => {
                lemma_value_tokens_agree(nodes, x.0, pointee(a->Dup_0), pointee(b->Dup_0), scope, below);
            },
            CompNode::Drop(x) => {
                lemma_value_tokens_agree(nodes, x.0, pointee(a->Drop_0), pointee(b->Drop_0), scope, below);
            },
            CompNode::Perform(_, _, x) => {
                lemma_value_tokens_agree(nodes, x.0, pointee(a->Perform_2), pointee(b->Perform_2), scope, below);
            },
            CompNode::Handle { scrutinee, ret, ops, .. } => {
                lemma_comp_tokens_agree(nodes, scrutinee.0, pointee(a->Handle_scrutinee), pointee(b->Handle_scrutinee), scope, below);
                lemma_branch_tokens_agree(nodes, id as int, ret, a->Handle_ret, b->Handle_ret, scope, below);
                lemma_clauses_tokens_agree(nodes, id as int, ops@, a->Handle_ops@, b->Handle_ops@, scope, below);
            },
            CompNode::Resume(x, y) => {
                lemma_value_tokens_agree(nodes, x.0, pointee(a->Resume_0), pointee(b->Resume_0), scope, below);
                lemma_comp_tokens_agree(nodes, y.0, pointee(a->Resume_1), pointee(b->Resume_1), scope, below);
            },
            CompNode::Reset(x) => {
                lemma_comp_tokens_agree(nodes, x.0, pointee(a->Reset_0), pointee(b->Reset_0), scope, below);
            },
            CompNode::Shift(_, x) => {
                lemma_comp_tokens_agree(nodes, x.0, pointee(a->Shift_1), pointee(b->Shift_1), scope.push(a->Shift_0), below);
            },
            CompNode::Native { args, .. } => {
                lemma_values_tokens_agree(nodes, id as int, args@, a->Native_args@, b->Native_args@, scope, below);
            },
            CompNode::Walk { scrut, base, .. } => {
                lemma_value_tokens_agree(nodes, scrut.0, pointee(a->Walk_scrut), pointee(b->Walk_scrut), scope, below);
                lemma_comp_tokens_agree(
                    nodes,
                    base.body.0,
                    pointee(a->Walk_base.body),
                    pointee(b->Walk_base.body),
                    scope.push(a->Walk_base.x),
                    below,
                );
            },
            CompNode::Hole(_) => {},
        }
    }
}

/// Two stacks spelled by one node have one token stream.
pub proof fn lemma_stack_tokens_agree(
    nodes: Seq<SyntaxNode>,
    id: u32,
    a: Stack,
    b: Stack,
    scope: Seq<String>,
    depth: nat,
)
    requires
        spells_stack(nodes, id, a),
        spells_stack(nodes, id, b),
    ensures
        stack_tokens(a, scope, depth) == stack_tokens(b, scope, depth),
    decreases id, 2nat, 0nat,
{
    if depth > 0 {
        let below = (depth - 1) as nat;
        let node = nodes[id as int]->Stack_0;
        lemma_stack_children_spelled(nodes, node, id as int, a);
        lemma_stack_children_spelled(nodes, node, id as int, b);
        match node {
            StackNode::Arg(x, rest) => {
                lemma_value_tokens_agree(nodes, x.0, pointee(a->Arg_0), pointee(b->Arg_0), scope, below);
                lemma_stack_tokens_agree(nodes, rest.0, pointee(a->Arg_1), pointee(b->Arg_1), scope, below);
            },
            StackNode::Bind(_, body, rest) => {
                lemma_comp_tokens_agree(nodes, body.0, pointee(a->Bind_1), pointee(b->Bind_1), scope.push(a->Bind_0), below);
                lemma_stack_tokens_agree(nodes, rest.0, pointee(a->Bind_2), pointee(b->Bind_2), scope, below);
            },
            StackNode::Prj(_, rest) => {
                lemma_stack_tokens_agree(nodes, rest.0, pointee(a->Prj_1), pointee(b->Prj_1), scope, below);
            },
            StackNode::Empty => {},
        }
    }
}

/// Appends one token.
fn emit(tokens: &mut Vec<CanonicalToken>, w: u64)
    ensures
        final(tokens)@ == old(tokens)@ + word(w),
{
    tokens.push(CanonicalToken(w));
    proof {
        assert(tokens@ =~= old(tokens)@ + word(w));
    }
}

/// Appends `w` as a payload token pair.
fn payload(tokens: &mut Vec<CanonicalToken>, w: u64)
    ensures
        final(tokens)@ == old(tokens)@ + payload_tokens(w),
{
    tokens.push(CanonicalToken(TAG_WORD));
    tokens.push(CanonicalToken(w));
    proof {
        assert(tokens@ =~= old(tokens)@ + payload_tokens(w));
    }
}

/// Appends a name's bytes and the name terminator.
fn name(tokens: &mut Vec<CanonicalToken>, text: &str)
    ensures
        final(tokens)@ == old(tokens)@ + name_tokens(text@),
{
    let bytes = text.as_bytes();
    let ghost start = tokens@;
    let ghost encoded = bytes@.map_values(|b: u8| CanonicalToken(b as u64));
    let mut index: usize = 0;
    while index < bytes.len()
        invariant
            index <= bytes@.len(),
            encoded == bytes@.map_values(|b: u8| CanonicalToken(b as u64)),
            tokens@ == start + encoded.subrange(0, index as int),
        decreases bytes@.len() - index,
    {
        tokens.push(CanonicalToken(bytes[index] as u64));
        proof {
            assert(tokens@ =~= start + encoded.subrange(0, index + 1));
        }
        index = index + 1;
    }
    tokens.push(CanonicalToken(TAG_NAME_END));
    proof {
        assert(encoded.subrange(0, bytes@.len() as int) =~= encoded);
        assert(bytes@ == encode_utf8(text@));
        assert(tokens@ =~= start + name_tokens(text@));
    }
}

/// Appends a count as a payload.
fn count(tokens: &mut Vec<CanonicalToken>, n: usize)
    ensures
        final(tokens)@ == old(tokens)@ + payload_tokens(n as u64),
{
    payload(tokens, n as u64);
}

/// Appends a side.
fn side_word(tokens: &mut Vec<CanonicalToken>, side: Side)
    ensures
        final(tokens)@ == old(tokens)@ + side_tokens(side),
{
    match side {
        Side::Fst => payload(tokens, 0),
        Side::Snd => payload(tokens, 1),
    }
}

/// Appends a grade: a finite bound, or the word past every bound for `ω`.
fn grade_word(tokens: &mut Vec<CanonicalToken>, grade: Grade)
    ensures
        final(tokens)@ == old(tokens)@ + grade_tokens(grade),
{
    match grade {
        Grade::Fin(bound) => payload(tokens, bound as u64),
        Grade::Omega => payload(tokens, 0x1_0000_0000),
    }
}

/// Appends a numeric literal: its tag, then its bits.
fn num_word(tokens: &mut Vec<CanonicalToken>, literal: NumLit)
    ensures
        final(tokens)@ == old(tokens)@ + num_tokens(literal),
{
    let ghost start = tokens@;
    match literal {
        NumLit::U32(n) => {
            payload(tokens, 0);
            payload(tokens, n as u64);
        },
        NumLit::U64(n) => {
            payload(tokens, 1);
            payload(tokens, n);
        },
        NumLit::I32(n) => {
            payload(tokens, 2);
            payload(tokens, n as u64);
        },
        NumLit::I64(n) => {
            payload(tokens, 3);
            payload(tokens, n as u64);
        },
        NumLit::F32(bits) => {
            payload(tokens, 4);
            payload(tokens, bits as u64);
        },
        NumLit::F64(bits) => {
            payload(tokens, 5);
            payload(tokens, bits);
        },
    }
    proof {
        assert(tokens@ =~= start + num_tokens(literal));
    }
}

/// Appends a declared datatype's identity.
fn data_word(tokens: &mut Vec<CanonicalToken>, id: &DataId)
    ensures
        final(tokens)@ == old(tokens)@ + data_tokens(*id),
{
    let ghost start = tokens@;
    payload(tokens, id.serial);
    name(tokens, id.name.as_str());
    proof {
        assert(tokens@ =~= start + data_tokens(*id));
    }
}

/// Appends a sealed component's identity.
fn seal_word(tokens: &mut Vec<CanonicalToken>, id: &SealId)
    ensures
        final(tokens)@ == old(tokens)@ + seal_tokens(*id),
{
    let ghost start = tokens@;
    payload(tokens, id.serial);
    name(tokens, id.declaration.as_str());
    name(tokens, id.component.as_str());
    proof {
        assert(tokens@ =~= start + seal_tokens(*id));
    }
}

/// Appends an effect row's labels.
fn row_word(tokens: &mut Vec<CanonicalToken>, row: &EffectRow)
    ensures
        final(tokens)@ == old(tokens)@ + row_tokens(*row),
{
    let ghost start = tokens@;
    count(tokens, row.labels.len());
    let ghost counted = tokens@;
    let mut index: usize = 0;
    proof {
        assert(counted =~= counted + labels_tokens(row.labels@.subrange(0, 0)));
    }
    while index < row.labels.len()
        invariant
            index <= row.labels@.len(),
            counted == start + payload_tokens(row.labels@.len() as u64),
            tokens@ == counted + labels_tokens(row.labels@.subrange(0, index as int)),
        decreases row.labels@.len() - index,
    {
        name(tokens, row.labels[index].as_str());
        proof {
            let grown = row.labels@.subrange(0, index + 1);
            assert(grown.drop_last() =~= row.labels@.subrange(0, index as int));
            assert(tokens@ =~= counted + labels_tokens(grown));
        }
        index = index + 1;
    }
    proof {
        assert(row.labels@.subrange(0, row.labels@.len() as int) =~= row.labels@);
        assert(tokens@ =~= start + row_tokens(*row));
    }
}

/// Where no binder of `scope` at or past `k` is `text`, the innermost
/// binding of `text` lies in the first `k` binders, shifted by the rest.
proof fn lemma_bound_position_skip(scope: Seq<String>, text: Seq<char>, k: int)
    requires
        0 <= k <= scope.len(),
        forall|j: int| k <= j < scope.len() ==> #[trigger] scope[j]@ != text,
    ensures
        bound_position(scope, text) == match bound_position(scope.subrange(0, k), text) {
            Some(i) => Some((i + (scope.len() - k)) as nat),
            None => None::<nat>,
        },
    decreases scope.len() - k,
{
    if k < scope.len() {
        let shorter = scope.drop_last();
        assert(scope.last() == scope[scope.len() - 1]);
        assert(shorter.subrange(0, k) =~= scope.subrange(0, k));
        assert forall|j: int| k <= j < shorter.len() implies #[trigger] shorter[j]@ != text by {
            assert(shorter[j] == scope[j]);
        }
        lemma_bound_position_skip(shorter, text, k);
    } else {
        assert(scope.subrange(0, k) =~= scope);
    }
}

/// The de Bruijn index of `name` in `scope`, innermost binder first.
fn bound_index(scope: &Vec<String>, text: &str) -> (r: Option<usize>)
    ensures
        match r {
            Some(i) => bound_position(scope@, text@) == Some(i as nat),
            None => bound_position(scope@, text@) is None,
        },
{
    let mut index: usize = scope.len();
    while index > 0
        invariant
            index <= scope@.len(),
            forall|j: int| index <= j < scope@.len() ==> #[trigger] scope@[j]@ != text@,
        decreases index,
    {
        if names_equal(scope[index - 1].as_str(), text) {
            proof {
                lemma_bound_position_skip(scope@, text@, index as int);
                let prefix = scope@.subrange(0, index as int);
                assert(prefix.last() == scope@[index - 1]);
            }
            return Some(scope.len() - index);
        }
        index = index - 1;
    }
    proof {
        lemma_bound_position_skip(scope@, text@, 0);
        assert(scope@.subrange(0, 0).len() == 0);
    }
    None
}

/// Emits the tokens of `body` with `binder` bound around it.
fn under_one(
    body: &Comp,
    binder: &String,
    scope: &mut Vec<String>,
    tokens: &mut Vec<CanonicalToken>,
    depth: u32,
)
    ensures
        final(tokens)@ == old(tokens)@ + comp_tokens(*body, old(scope)@.push(*binder), depth as nat),
        final(scope)@ == old(scope)@,
    decreases depth, 1nat,
{
    scope.push(binder.clone());
    visit_comp(body, scope, tokens, depth);
    scope.pop();
    proof {
        assert(scope@ =~= old(scope)@);
    }
}

/// Emits the tokens of `body` with `first` and then `second` bound around
/// it.
fn under_two(
    body: &Comp,
    first: &String,
    second: &String,
    scope: &mut Vec<String>,
    tokens: &mut Vec<CanonicalToken>,
    depth: u32,
)
    ensures
        final(tokens)@ == old(tokens)@ + comp_tokens(
            *body,
            old(scope)@.push(*first).push(*second),
            depth as nat,
        ),
        final(scope)@ == old(scope)@,
    decreases depth, 1nat,
{
    scope.push(first.clone());
    scope.push(second.clone());
    visit_comp(body, scope, tokens, depth);
    scope.pop();
    scope.pop();
    proof {
        assert(scope@ =~= old(scope)@);
    }
}

/// Emits the canonical tokens of an effect signature: its name and each
/// operation's label and types.
fn sig_word(sig: &EffectSig, scope: &mut Vec<String>, tokens: &mut Vec<CanonicalToken>, depth: u32)
    ensures
        final(tokens)@ == old(tokens)@ + sig_tokens(*sig, old(scope)@, depth as nat),
        final(scope)@ == old(scope)@,
    decreases depth, 1nat,
{
    let ghost start = tokens@;
    name(tokens, sig.name.as_str());
    count(tokens, sig.ops.len());
    let ghost counted = tokens@;
    let mut index: usize = 0;
    proof {
        assert(counted =~= counted + sig_ops_tokens(sig.ops@.subrange(0, 0), scope@, depth as nat));
    }
    while index < sig.ops.len()
        invariant
            index <= sig.ops@.len(),
            scope@ == old(scope)@,
            counted == start + name_tokens(sig.name@) + payload_tokens(sig.ops@.len() as u64),
            tokens@ == counted + sig_ops_tokens(sig.ops@.subrange(0, index as int), scope@, depth as nat),
        decreases sig.ops@.len() - index,
    {
        let op = &sig.ops[index];
        let ghost before = tokens@;
        name(tokens, op.name.as_str());
        visit_value_type(&op.param, scope, tokens, depth);
        visit_value_type(&op.result, scope, tokens, depth);
        proof {
            let grown = sig.ops@.subrange(0, index + 1);
            assert(grown.drop_last() =~= sig.ops@.subrange(0, index as int));
            assert(grown.last() == *op);
            assert(tokens@ =~= counted + sig_ops_tokens(grown, scope@, depth as nat));
        }
        index = index + 1;
    }
    proof {
        assert(sig.ops@.subrange(0, sig.ops@.len() as int) =~= sig.ops@);
        assert(tokens@ =~= start + sig_tokens(*sig, old(scope)@, depth as nat));
    }
}

/// Emits the canonical tokens of one value and of everything beneath it.
#[verifier::rlimit(50)]
fn visit_value(term: &Value, scope: &mut Vec<String>, tokens: &mut Vec<CanonicalToken>, depth: u32)
    ensures
        final(tokens)@ == old(tokens)@ + value_tokens(*term, old(scope)@, depth as nat),
        final(scope)@ == old(scope)@,
    decreases depth, 0nat,
{
    if depth == 0 {
        emit(tokens, TAG_TOO_DEEP);
        return;
    }
    let below = depth - 1;
    let ghost start = tokens@;
    match term {
        Value::Var(text) => match bound_index(scope, text.as_str()) {
            Some(index) => {
                emit(tokens, TAG_BOUND);
                payload(tokens, index as u64);
            },
            None => {
                emit(tokens, TAG_FREE);
                name(tokens, text.as_str());
            },
        },
        Value::Unit => emit(tokens, TAG_VALUE),
        Value::Int(literal) => {
            emit(tokens, TAG_VALUE + 1);
            payload(tokens, *literal as u64);
        },
        Value::Str(literal) => {
            emit(tokens, TAG_VALUE + 2);
            name(tokens, literal.as_str());
        },
        Value::Num(literal) => {
            emit(tokens, TAG_VALUE + 3);
            num_word(tokens, *literal);
        },
        Value::Pair(fst, snd) => {
            emit(tokens, TAG_VALUE + 4);
            visit_value(fst, scope, tokens, below);
            visit_value(snd, scope, tokens, below);
        },
        Value::Inj(side, carried) => {
            emit(tokens, TAG_VALUE + 5);
            side_word(tokens, *side);
            visit_value(carried, scope, tokens, below);
        },
        Value::List(elements) => {
            emit(tokens, TAG_VALUE + 6);
            count(tokens, elements.len());
            let ghost counted = tokens@;
            let mut index: usize = 0;
            proof {
                assert(counted =~= counted + values_tokens(elements@.subrange(0, 0), scope@, below as nat));
            }
            while index < elements.len()
                invariant
                    index <= elements@.len(),
                    below < depth,
                    scope@ == old(scope)@,
                    tokens@ == counted + values_tokens(
                        elements@.subrange(0, index as int),
                        scope@,
                        below as nat,
                    ),
                decreases elements@.len() - index,
            {
                visit_value(&elements[index], scope, tokens, below);
                proof {
                    let grown = elements@.subrange(0, index + 1);
                    assert(grown.drop_last() =~= elements@.subrange(0, index as int));
                    assert(tokens@ =~= counted + values_tokens(grown, scope@, below as nat));
                }
                index = index + 1;
            }
            proof {
                assert(elements@.subrange(0, elements@.len() as int) =~= elements@);
            }
        },
        Value::Record(fields) => {
            emit(tokens, TAG_VALUE + 7);
            count(tokens, fields.len());
            let ghost counted = tokens@;
            let mut index: usize = 0;
            proof {
                assert(counted =~= counted + fields_tokens(fields@.subrange(0, 0), scope@, below as nat));
            }
            while index < fields.len()
                invariant
                    index <= fields@.len(),
                    below < depth,
                    scope@ == old(scope)@,
                    tokens@ == counted + fields_tokens(
                        fields@.subrange(0, index as int),
                        scope@,
                        below as nat,
                    ),
                decreases fields@.len() - index,
            {
                name(tokens, fields[index].label.as_str());
                visit_value(&fields[index].value, scope, tokens, below);
                proof {
                    let grown = fields@.subrange(0, index + 1);
                    assert(grown.drop_last() =~= fields@.subrange(0, index as int));
                    assert(tokens@ =~= counted + fields_tokens(grown, scope@, below as nat));
                }
                index = index + 1;
            }
            proof {
                assert(fields@.subrange(0, fields@.len() as int) =~= fields@);
            }
        },
        Value::Thunk(grade, body) => {
            emit(tokens, TAG_VALUE + 8);
            grade_word(tokens, *grade);
            visit_comp(body, scope, tokens, below);
        },
        Value::Annot(inner, ty) => {
            emit(tokens, TAG_VALUE + 9);
            visit_value(inner, scope, tokens, below);
            visit_value_type(ty, scope, tokens, below);
        },
        Value::Hole(hole) => {
            emit(tokens, TAG_VALUE + 10);
            payload(tokens, *hole);
        },
        Value::Stk(stack) => {
            emit(tokens, TAG_VALUE + 11);
            visit_stack(stack, scope, tokens, below);
        },
        Value::Here(witness) => {
            emit(tokens, TAG_VALUE + 12);
            visit_value(witness, scope, tokens, below);
        },
        Value::Ctor { id, tag, payload: carried } => {
            emit(tokens, TAG_VALUE + 13);
            data_word(tokens, id);
            payload(tokens, *tag as u64);
            visit_value(carried, scope, tokens, below);
        },
    }
    proof {
        assert(tokens@ =~= start + value_tokens(*term, old(scope)@, depth as nat));
    }
}

/// Emits the canonical tokens of one computation and of everything beneath
/// it.
#[verifier::rlimit(80)]
fn visit_comp(term: &Comp, scope: &mut Vec<String>, tokens: &mut Vec<CanonicalToken>, depth: u32)
    ensures
        final(tokens)@ == old(tokens)@ + comp_tokens(*term, old(scope)@, depth as nat),
        final(scope)@ == old(scope)@,
    decreases depth, 0nat,
{
    if depth == 0 {
        emit(tokens, TAG_TOO_DEEP);
        return;
    }
    let below = depth - 1;
    let ghost start = tokens@;
    match term {
        Comp::Abs(binder, _, body) => {
            // The optional ascription is inert for the key exactly as it is
            // inert for evaluation.
            emit(tokens, TAG_COMP);
            under_one(body, binder, scope, tokens, below);
        },
        Comp::App(head, arg) => {
            emit(tokens, TAG_COMP + 1);
            visit_comp(head, scope, tokens, below);
            visit_value(arg, scope, tokens, below);
        },
        Comp::Ret(value) => {
            emit(tokens, TAG_COMP + 2);
            visit_value(value, scope, tokens, below);
        },
        Comp::Bind(bound, binder, cont) => {
            emit(tokens, TAG_COMP + 3);
            visit_comp(bound, scope, tokens, below);
            under_one(cont, binder, scope, tokens, below);
        },
        Comp::Force(value) => {
            emit(tokens, TAG_COMP + 4);
            visit_value(value, scope, tokens, below);
        },
        Comp::Case(scrut, left, right) => {
            emit(tokens, TAG_COMP + 5);
            visit_value(scrut, scope, tokens, below);
            under_one(&left.body, &left.binder, scope, tokens, below);
            under_one(&right.body, &right.binder, scope, tokens, below);
        },
        Comp::DataCase(scrut, arms) => {
            emit(tokens, TAG_COMP + 6);
            count(tokens, arms.len());
            visit_value(scrut, scope, tokens, below);
            let ghost counted = tokens@;
            let mut index: usize = 0;
            proof {
                assert(counted =~= counted + arms_tokens(arms@.subrange(0, 0), scope@, below as nat));
            }
            while index < arms.len()
                invariant
                    index <= arms@.len(),
                    below < depth,
                    scope@ == old(scope)@,
                    tokens@ == counted + arms_tokens(arms@.subrange(0, index as int), scope@, below as nat),
                decreases arms@.len() - index,
            {
                under_one(&arms[index].body, &arms[index].binder, scope, tokens, below);
                proof {
                    let grown = arms@.subrange(0, index + 1);
                    assert(grown.drop_last() =~= arms@.subrange(0, index as int));
                    assert(tokens@ =~= counted + arms_tokens(grown, scope@, below as nat));
                }
                index = index + 1;
            }
            proof {
                assert(arms@.subrange(0, arms@.len() as int) =~= arms@);
            }
        },
        Comp::ListCase { scrut, nil, head, tail, cons } => {
            emit(tokens, TAG_COMP + 7);
            visit_value(scrut, scope, tokens, below);
            visit_comp(nil, scope, tokens, below);
            under_two(cons, head, tail, scope, tokens, below);
        },
        Comp::Split { scrut, fst_name, snd_name, body, .. } => {
            emit(tokens, TAG_COMP + 8);
            visit_value(scrut, scope, tokens, below);
            under_two(body, fst_name, snd_name, scope, tokens, below);
        },
        Comp::RecordProj { record, label } => {
            emit(tokens, TAG_COMP + 9);
            name(tokens, label.as_str());
            visit_value(record, scope, tokens, below);
        },
        Comp::With(fst, snd) => {
            emit(tokens, TAG_COMP + 10);
            visit_comp(fst, scope, tokens, below);
            visit_comp(snd, scope, tokens, below);
        },
        Comp::Prj(side, body) => {
            emit(tokens, TAG_COMP + 11);
            side_word(tokens, *side);
            visit_comp(body, scope, tokens, below);
        },
        Comp::Dup(value) => {
            emit(tokens, TAG_COMP + 12);
            visit_value(value, scope, tokens, below);
        },
        Comp::Drop(value) => {
            emit(tokens, TAG_COMP + 13);
            visit_value(value, scope, tokens, below);
        },
        Comp::Perform(sig, op, carried) => {
            emit(tokens, TAG_COMP + 14);
            sig_word(sig, scope, tokens, below);
            name(tokens, op.as_str());
            visit_value(carried, scope, tokens, below);
        },
        Comp::Handle { sig, scrutinee, ret, ops } => {
            emit(tokens, TAG_COMP + 15);
            sig_word(sig, scope, tokens, below);
            count(tokens, ops.len());
            visit_comp(scrutinee, scope, tokens, below);
            under_one(&ret.body, &ret.binder, scope, tokens, below);
            let ghost counted = tokens@;
            let mut index: usize = 0;
            proof {
                assert(counted =~= counted + clauses_tokens(ops@.subrange(0, 0), scope@, below as nat));
            }
            while index < ops.len()
                invariant
                    index <= ops@.len(),
                    below < depth,
                    scope@ == old(scope)@,
                    tokens@ == counted + clauses_tokens(ops@.subrange(0, index as int), scope@, below as nat),
                decreases ops@.len() - index,
            {
                let clause = &ops[index];
                name(tokens, clause.op.as_str());
                under_two(&clause.body, &clause.payload, &clause.resume, scope, tokens, below);
                proof {
                    let grown = ops@.subrange(0, index + 1);
                    assert(grown.drop_last() =~= ops@.subrange(0, index as int));
                    assert(grown.last() == *clause);
                    assert(tokens@ =~= counted + clauses_tokens(grown, scope@, below as nat));
                }
                index = index + 1;
            }
            proof {
                assert(ops@.subrange(0, ops@.len() as int) =~= ops@);
            }
        },
        Comp::Resume(value, body) => {
            emit(tokens, TAG_COMP + 16);
            visit_value(value, scope, tokens, below);
            visit_comp(body, scope, tokens, below);
        },
        Comp::Reset(body) => {
            emit(tokens, TAG_COMP + 17);
            visit_comp(body, scope, tokens, below);
        },
        Comp::Shift(binder, body) => {
            emit(tokens, TAG_COMP + 18);
            under_one(body, binder, scope, tokens, below);
        },
        Comp::Hole(hole) => {
            emit(tokens, TAG_COMP + 19);
            payload(tokens, *hole);
        },
        Comp::Native { prim, args } => {
            emit(tokens, TAG_COMP + 20);
            payload(tokens, prim_code(*prim));
            count(tokens, args.len());
            let ghost counted = tokens@;
            let mut index: usize = 0;
            proof {
                assert(counted =~= counted + values_tokens(args@.subrange(0, 0), scope@, below as nat));
            }
            while index < args.len()
                invariant
                    index <= args@.len(),
                    below < depth,
                    scope@ == old(scope)@,
                    tokens@ == counted + values_tokens(args@.subrange(0, index as int), scope@, below as nat),
                decreases args@.len() - index,
            {
                visit_value(&args[index], scope, tokens, below);
                proof {
                    let grown = args@.subrange(0, index + 1);
                    assert(grown.drop_last() =~= args@.subrange(0, index as int));
                    assert(tokens@ =~= counted + values_tokens(grown, scope@, below as nat));
                }
                index = index + 1;
            }
            proof {
                assert(args@.subrange(0, args@.len() as int) =~= args@);
            }
        },
        Comp::Walk { scrut, base, .. } => {
            // The motive is a type ascription on the eliminator and is erased
            // for the same reason an annotation is.
            emit(tokens, TAG_COMP + 21);
            visit_value(scrut, scope, tokens, below);
            under_one(&base.body, &base.x, scope, tokens, below);
        },
    }
    proof {
        assert(tokens@ =~= start + comp_tokens(*term, old(scope)@, depth as nat));
    }
}

/// Emits the canonical tokens of one stack and of everything beneath it.
fn visit_stack(term: &Stack, scope: &mut Vec<String>, tokens: &mut Vec<CanonicalToken>, depth: u32)
    ensures
        final(tokens)@ == old(tokens)@ + stack_tokens(*term, old(scope)@, depth as nat),
        final(scope)@ == old(scope)@,
    decreases depth, 0nat,
{
    if depth == 0 {
        emit(tokens, TAG_TOO_DEEP);
        return;
    }
    let below = depth - 1;
    let ghost start = tokens@;
    match term {
        Stack::Empty => emit(tokens, TAG_STACK),
        Stack::Arg(arg, rest) => {
            emit(tokens, TAG_STACK + 1);
            visit_value(arg, scope, tokens, below);
            visit_stack(rest, scope, tokens, below);
        },
        Stack::Bind(binder, body, rest) => {
            emit(tokens, TAG_STACK + 2);
            under_one(body, binder, scope, tokens, below);
            visit_stack(rest, scope, tokens, below);
        },
        Stack::Prj(side, rest) => {
            emit(tokens, TAG_STACK + 3);
            side_word(tokens, *side);
            visit_stack(rest, scope, tokens, below);
        },
    }
    proof {
        assert(tokens@ =~= start + stack_tokens(*term, old(scope)@, depth as nat));
    }
}

/// Emits the canonical tokens of one value type and of everything beneath it.
#[verifier::rlimit(50)]
fn visit_value_type(
    ty: &ValueType,
    scope: &mut Vec<String>,
    tokens: &mut Vec<CanonicalToken>,
    depth: u32,
)
    ensures
        final(tokens)@ == old(tokens)@ + value_type_tokens(*ty, old(scope)@, depth as nat),
        final(scope)@ == old(scope)@,
    decreases depth, 0nat,
{
    if depth == 0 {
        emit(tokens, TAG_TOO_DEEP);
        return;
    }
    let below = depth - 1;
    let ghost start = tokens@;
    match ty {
        ValueType::Atom(text) => {
            emit(tokens, TAG_VALUE_TYPE);
            name(tokens, text.as_str());
        },
        ValueType::Unit => emit(tokens, TAG_VALUE_TYPE + 1),
        ValueType::Prod(fst, snd) => {
            emit(tokens, TAG_VALUE_TYPE + 2);
            visit_value_type(fst, scope, tokens, below);
            visit_value_type(snd, scope, tokens, below);
        },
        ValueType::Sum(lhs, rhs) => {
            emit(tokens, TAG_VALUE_TYPE + 3);
            visit_value_type(lhs, scope, tokens, below);
            visit_value_type(rhs, scope, tokens, below);
        },
        ValueType::List(element) => {
            emit(tokens, TAG_VALUE_TYPE + 4);
            visit_value_type(element, scope, tokens, below);
        },
        ValueType::Record(fields) => {
            emit(tokens, TAG_VALUE_TYPE + 5);
            count(tokens, fields.len());
            let ghost counted = tokens@;
            let mut index: usize = 0;
            proof {
                assert(counted =~= counted + field_types_tokens(fields@.subrange(0, 0), scope@, below as nat));
            }
            while index < fields.len()
                invariant
                    index <= fields@.len(),
                    below < depth,
                    scope@ == old(scope)@,
                    tokens@ == counted + field_types_tokens(
                        fields@.subrange(0, index as int),
                        scope@,
                        below as nat,
                    ),
                decreases fields@.len() - index,
            {
                name(tokens, fields[index].label.as_str());
                visit_value_type(&fields[index].ty, scope, tokens, below);
                proof {
                    let grown = fields@.subrange(0, index + 1);
                    assert(grown.drop_last() =~= fields@.subrange(0, index as int));
                    assert(tokens@ =~= counted + field_types_tokens(grown, scope@, below as nat));
                }
                index = index + 1;
            }
            proof {
                assert(fields@.subrange(0, fields@.len() as int) =~= fields@);
            }
        },
        ValueType::Thunk(grade, body) => {
            emit(tokens, TAG_VALUE_TYPE + 6);
            grade_word(tokens, *grade);
            visit_comp_type(body, scope, tokens, below);
        },
        ValueType::Stk(consumes, delivers) => {
            emit(tokens, TAG_VALUE_TYPE + 7);
            visit_comp_type(consumes, scope, tokens, below);
            visit_comp_type(delivers, scope, tokens, below);
        },
        ValueType::Path { ty: carrier, lhs, rhs } => {
            emit(tokens, TAG_VALUE_TYPE + 8);
            visit_value_type(carrier, scope, tokens, below);
            visit_value(lhs, scope, tokens, below);
            visit_value(rhs, scope, tokens, below);
        },
        ValueType::Data { id, args } => {
            emit(tokens, TAG_VALUE_TYPE + 9);
            data_word(tokens, id);
            count(tokens, args.len());
            let ghost counted = tokens@;
            let mut index: usize = 0;
            proof {
                assert(counted =~= counted + value_types_tokens(args@.subrange(0, 0), scope@, below as nat));
            }
            while index < args.len()
                invariant
                    index <= args@.len(),
                    below < depth,
                    scope@ == old(scope)@,
                    tokens@ == counted + value_types_tokens(
                        args@.subrange(0, index as int),
                        scope@,
                        below as nat,
                    ),
                decreases args@.len() - index,
            {
                visit_value_type(&args[index], scope, tokens, below);
                proof {
                    let grown = args@.subrange(0, index + 1);
                    assert(grown.drop_last() =~= args@.subrange(0, index as int));
                    assert(tokens@ =~= counted + value_types_tokens(grown, scope@, below as nat));
                }
                index = index + 1;
            }
            proof {
                assert(args@.subrange(0, args@.len() as int) =~= args@);
            }
        },
        ValueType::Universe => emit(tokens, TAG_VALUE_TYPE + 10),
        ValueType::Sigma { fst, binder, snd } => {
            emit(tokens, TAG_VALUE_TYPE + 11);
            visit_value_type(fst, scope, tokens, below);
            scope.push(binder.clone());
            visit_value_type(snd, scope, tokens, below);
            scope.pop();
            proof {
                assert(scope@ =~= old(scope)@);
            }
        },
        ValueType::Sealed(id) => {
            emit(tokens, TAG_VALUE_TYPE + 12);
            seal_word(tokens, id);
        },
        ValueType::Unknown => emit(tokens, TAG_VALUE_TYPE + 13),
    }
    proof {
        assert(tokens@ =~= start + value_type_tokens(*ty, old(scope)@, depth as nat));
    }
}

/// Emits the canonical tokens of one computation type and of everything
/// beneath it.
fn visit_comp_type(
    ty: &CompType,
    scope: &mut Vec<String>,
    tokens: &mut Vec<CanonicalToken>,
    depth: u32,
)
    ensures
        final(tokens)@ == old(tokens)@ + comp_type_tokens(*ty, old(scope)@, depth as nat),
        final(scope)@ == old(scope)@,
    decreases depth, 0nat,
{
    if depth == 0 {
        emit(tokens, TAG_TOO_DEEP);
        return;
    }
    let below = depth - 1;
    let ghost start = tokens@;
    match ty {
        CompType::F(of, row) => {
            emit(tokens, TAG_COMP_TYPE);
            row_word(tokens, row);
            visit_value_type(of, scope, tokens, below);
        },
        CompType::Arrow(arg, res) => {
            emit(tokens, TAG_COMP_TYPE + 1);
            visit_value_type(arg, scope, tokens, below);
            visit_comp_type(res, scope, tokens, below);
        },
        CompType::With(fst, snd) => {
            emit(tokens, TAG_COMP_TYPE + 2);
            visit_comp_type(fst, scope, tokens, below);
            visit_comp_type(snd, scope, tokens, below);
        },
        CompType::Unknown => emit(tokens, TAG_COMP_TYPE + 3),
    }
    proof {
        assert(tokens@ =~= start + comp_type_tokens(*ty, old(scope)@, depth as nat));
    }
}

/// The canonical key of an ordinary term.
pub fn term_key(term: &Value) -> (key: CanonicalKey)
    ensures
        key@ == term_tokens(*term),
{
    let mut tokens: Vec<CanonicalToken> = Vec::new();
    let mut scope: Vec<String> = Vec::new();
    visit_value(term, &mut scope, &mut tokens, NESTING_LIMIT);
    proof {
        assert(tokens@ =~= term_tokens(*term));
    }
    CanonicalKey(tokens)
}

/// The canonical key of the value a store handle names: its full structural
/// content in canonical binder form.
pub fn canonical_key(syntax: &FlatArena, node: ValueNodeId) -> (key: CanonicalKey)
    requires
        syntax.wf(),
    ensures
        forall|t: Value| #[trigger]
            spells_value(syntax.nodes(), node.0, t) ==> key@ == term_tokens(t),
        !(exists|t: Value| spells_value(syntax.nodes(), node.0, t)) ==> key@ == word(TAG_MISSING),
{
    match syntax.value(node) {
        Ok(term) => {
            let key = term_key(&term);
            proof {
                assert forall|t: Value| #[trigger]
                    spells_value(syntax.nodes(), node.0, t) implies key@ == term_tokens(t) by {
                    lemma_value_tokens_agree(
                        syntax.nodes(),
                        node.0,
                        term,
                        t,
                        Seq::empty(),
                        NESTING_LIMIT as nat,
                    );
                }
            }
            key
        },
        Err(_) => {
            let mut tokens: Vec<CanonicalToken> = Vec::new();
            emit(&mut tokens, TAG_MISSING);
            proof {
                assert(tokens@ =~= word(TAG_MISSING));
            }
            CanonicalKey(tokens)
        },
    }
}

} // verus!
