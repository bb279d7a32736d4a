//! The string, pattern, and path primitives: regex-literal escaping, the
//! substring predicates, splitting on a literal separator, named-capture
//! extraction, and UTF-8 path joining and decomposition.

use std::rc::Rc;
use vstd::prelude::*;

use crate::prim::as_str;
use crate::prim::insert_field;
use crate::prim::labels_ascending;
use crate::prim::lemma_overlay_keeps_ascending;
use crate::prim::one_arg;
use crate::prim::overlay_field;
use crate::prim::ret_bool;
use crate::prim::bool_value_spec;
use crate::prim::str_of;
use crate::prim::two_args;
use crate::syntax::names_equal;
use crate::syntax::Comp;
use crate::syntax::FieldValue;
use crate::syntax::Value;
use crate::text::chars_of;
use crate::text::contains;
use crate::text::ends_with;
use crate::text::occurs_at;
use crate::text::starts_with;
use crate::text::string_of;

verus! {

/// Whether `c` is a regex metacharacter that escaping quotes.
pub open spec fn is_meta(c: char) -> bool {
    c == '\\' || c == '.' || c == '+' || c == '*' || c == '?' || c == '(' || c == ')' || c == '|'
        || c == '[' || c == ']' || c == '{' || c == '}' || c == '^' || c == '$' || c == '#' || c
        == '&' || c == '-' || c == '~'
}

/// The text with every metacharacter preceded by a backslash.
pub open spec fn escaped(text: Seq<char>) -> Seq<char>
    decreases text.len(),
{
    if text.len() == 0 {
        Seq::empty()
    } else if is_meta(text.last()) {
        escaped(text.drop_last()).push('\\').push(text.last())
    } else {
        escaped(text.drop_last()).push(text.last())
    }
}

/// Whether `c` is a regex metacharacter.
fn is_meta_char(c: char) -> (b: bool)
    ensures
        b == is_meta(c),
{
    c == '\\' || c == '.' || c == '+' || c == '*' || c == '?' || c == '(' || c == ')' || c == '|'
        || c == '[' || c == ']' || c == '{' || c == '}' || c == '^' || c == '$' || c == '#' || c
        == '&' || c == '-' || c == '~'
}

/// Escapes regex metacharacters so the result matches `value` literally.
pub fn escape_regex_literal(value: &str) -> (text: String)
    ensures
        text@ == escaped(value@),
{
    let chars = chars_of(value);
    let mut out: Vec<char> = Vec::new();
    let mut index: usize = 0;
    while index < chars.len()
        invariant
            index <= chars@.len(),
            out@ == escaped(chars@.subrange(0, index as int)),
        decreases chars@.len() - index,
    {
        let c = chars[index];
        proof {
            assert(chars@.subrange(0, index + 1).drop_last() =~= chars@.subrange(0, index as int));
            assert(chars@.subrange(0, index + 1).last() == c);
        }
        if is_meta_char(c) {
            out.push('\\');
        }
        out.push(c);
        index = index + 1;
    }
    proof {
        assert(chars@.subrange(0, chars@.len() as int) =~= chars@);
    }
    string_of(out.as_slice())
}

/// What `native_string_escape` returns on `args`.
pub open spec fn native_string_escape_outcome(args: Seq<Rc<Value>>, c: Comp) -> bool {
    &&& !(args.len() == 1 && str_of(*args[0]) is Some) ==> c == Comp::Hole(0)
    &&& args.len() == 1 && str_of(*args[0]) is Some ==> (c matches Comp::Ret(v) && (*v
        matches Value::Str(t) && t@ == escaped(str_of(*args[0]).unwrap())))
}

/// `escape s` — quote regex metacharacters in a manifest string.
pub fn native_string_escape(args: &[Rc<Value>]) -> (c: Comp)
    ensures
        native_string_escape_outcome(args@, c),
{
    match one_arg(args) {
        Some(value) => match as_str(&value) {
            Some(text) => Comp::Ret(Rc::new(Value::Str(escape_regex_literal(text.as_str())))),
            None => Comp::hole(0),
        },
        None => Comp::hole(0),
    }
}

/// Which substring test a string predicate performs.
#[derive(Clone, Copy, Debug, PartialEq, Eq, Structural)]
pub enum StringTest {
    /// The needle occurs somewhere in the haystack.
    Contains,
    /// The haystack begins with the needle.
    StartsWith,
    /// The haystack ends with the needle.
    EndsWith,
    /// The two strings are equal.
    Equals,
}

/// The truth of a substring test.
pub open spec fn string_test(test: StringTest, haystack: Seq<char>, needle: Seq<char>) -> bool {
    match test {
        StringTest::Contains => exists|at: int| occurs_at(haystack, needle, at),
        StringTest::StartsWith => occurs_at(haystack, needle, 0),
        StringTest::EndsWith => occurs_at(haystack, needle, haystack.len() - needle.len()),
        StringTest::Equals => haystack == needle,
    }
}

/// What `native_string_predicate` returns on `args`.
pub open spec fn native_string_predicate_outcome(args: Seq<Rc<Value>>, test: StringTest, c: Comp) -> bool {
    &&& !(args.len() == 2 && str_of(*args[0]) is Some && str_of(*args[1]) is Some) ==> c
        == Comp::Hole(0)
    &&& args.len() == 2 && str_of(*args[0]) is Some && str_of(*args[1]) is Some ==> c
        == Comp::Ret(
        Rc::new(
            bool_value_spec(
                string_test(test, str_of(*args[0]).unwrap(), str_of(*args[1]).unwrap()),
            ),
        ),
    )
}

/// Applies a substring test to two manifest strings and returns the
/// canonical boolean.
pub fn native_string_predicate(args: &[Rc<Value>], test: StringTest) -> (c: Comp)
    ensures
        native_string_predicate_outcome(args@, test, c),
{
    match two_args(args) {
        Some((haystack, needle)) => match (as_str(&haystack), as_str(&needle)) {
            (Some(haystack), Some(needle)) => {
                let verdict = match test {
                    StringTest::Contains => contains(haystack.as_str(), needle.as_str()),
                    StringTest::StartsWith => starts_with(haystack.as_str(), needle.as_str()),
                    StringTest::EndsWith => ends_with(haystack.as_str(), needle.as_str()),
                    StringTest::Equals => names_equal(haystack.as_str(), needle.as_str()),
                };
                ret_bool(verdict)
            },
            _ => Comp::hole(0),
        },
        None => Comp::hole(0),
    }
}

/// The first position, from `from` on, at which `separator` occurs in
/// `text`.
pub open spec fn first_occurrence(text: Seq<char>, separator: Seq<char>, from: int) -> Option<int>
    decreases text.len() + 1 - from,
{
    if from < 0 || from + separator.len() > text.len() {
        None
    } else if text.subrange(from, from + separator.len()) == separator {
        Some(from)
    } else {
        first_occurrence(text, separator, from + 1)
    }
}

/// The pieces a non-empty literal `separator` cuts `text` into: the text up
/// to its first occurrence, then the pieces of what follows that
/// occurrence; the whole text when it does not occur.
pub open spec fn split_literal(text: Seq<char>, separator: Seq<char>) -> Seq<Seq<char>>
    decreases text.len(),
{
    match first_occurrence(text, separator, 0) {
        Some(at) => if separator.len() > 0 && 0 <= at && at + separator.len() <= text.len() {
            seq![text.subrange(0, at)] + split_literal(
                text.subrange(at + separator.len(), text.len() as int),
                separator,
            )
        } else {
            seq![text]
        },
        None => seq![text],
    }
}

/// The pieces an empty separator cuts `text` into: it separates every
/// character, along with the beginning and the end of the text, so an empty
/// piece, each character on its own, and an empty piece.
pub open spec fn split_empty(text: Seq<char>) -> Seq<Seq<char>> {
    seq![Seq::<char>::empty()] + Seq::new(text.len(), |i: int| seq![text[i]]) + seq![
        Seq::<char>::empty(),
    ]
}

/// The characters of each string, in order.
pub open spec fn texts_of(pieces: Seq<String>) -> Seq<Seq<char>> {
    pieces.map_values(|piece: String| piece@)
}

/// Splits `haystack` on every occurrence of the literal `separator`
/// (`str::split` with a string pattern). A non-empty separator cuts at its
/// occurrences found left to right, none overlapping, so the pieces are
/// [`split_literal`]'s; an empty separator separates every character and
/// the two ends, as `str::split` documents, so the pieces are
/// [`split_empty`]'s.
#[verifier::external_body]
fn split_on(haystack: &str, separator: &str) -> (pieces: Vec<String>)
    ensures
        separator@.len() > 0 ==> texts_of(pieces@) == split_literal(haystack@, separator@),
        separator@.len() == 0 ==> texts_of(pieces@) == split_empty(haystack@),
{
    haystack.split(separator).map(|piece| piece.to_owned()).collect()
}

/// The list of string values the pieces of a split make, in order.
pub fn split_result(pieces: Vec<String>) -> (c: Comp)
    ensures
        c matches Comp::Ret(v) && (*v matches Value::List(items) && items@.len() == pieces@.len()
            && forall|i: int|
            #![trigger items@[i]]
            0 <= i < items@.len() ==> (*items@[i] matches Value::Str(t) && t@ == pieces@[i]@)),
{
    let mut items: Vec<Rc<Value>> = Vec::new();
    let mut index: usize = 0;
    while index < pieces.len()
        invariant
            index <= pieces@.len(),
            items@.len() == index,
            forall|i: int|
                #![trigger items@[i]]
                0 <= i < index ==> (*items@[i] matches Value::Str(t) && t@ == pieces@[i]@),
        decreases pieces@.len() - index,
    {
        items.push(Rc::new(Value::Str(pieces[index].clone())));
        index = index + 1;
    }
    Comp::Ret(Rc::new(Value::List(items)))
}

/// The pieces a split cuts `haystack` into at `separator`: the literal
/// split for a non-empty separator, every character on its own between two
/// empty ends for an empty one.
pub open spec fn split_texts(haystack: Seq<char>, separator: Seq<char>) -> Seq<Seq<char>> {
    if separator.len() > 0 {
        split_literal(haystack, separator)
    } else {
        split_empty(haystack)
    }
}

/// What `native_string_split` returns on `args`.
pub open spec fn native_string_split_outcome(args: Seq<Rc<Value>>, c: Comp) -> bool {
    &&& !(args.len() == 2 && str_of(*args[0]) is Some && str_of(*args[1]) is Some) ==> c
        == Comp::Hole(0)
    &&& args.len() == 2 && str_of(*args[0]) is Some && str_of(*args[1]) is Some ==> (c matches Comp::Ret(
        v,
    ) && (*v matches Value::List(items) && items@.len() == split_texts(
        str_of(*args[0]).unwrap(),
        str_of(*args[1]).unwrap(),
    ).len() && forall|i: int|
        #![trigger items@[i]]
        0 <= i < items@.len() ==> (*items@[i] matches Value::Str(t) && t@ == split_texts(
            str_of(*args[0]).unwrap(),
            str_of(*args[1]).unwrap(),
        )[i])))
}

/// `split s sep` — split a manifest string on a literal manifest separator.
pub fn native_string_split(args: &[Rc<Value>]) -> (c: Comp)
    ensures
        native_string_split_outcome(args@, c),
{
    match two_args(args) {
        Some((haystack, separator)) => match (as_str(&haystack), as_str(&separator)) {
            (Some(haystack), Some(separator)) => {
                let pieces = split_on(haystack.as_str(), separator.as_str());
                proof {
                    assert forall|i: int| 0 <= i < pieces@.len() implies pieces@[i]@ == split_texts(
                        haystack@,
                        separator@,
                    )[i] by {
                        assert(texts_of(pieces@)[i] == pieces@[i]@);
                    }
                }
                split_result(pieces)
            },
            _ => Comp::hole(0),
        },
        None => Comp::hole(0),
    }
}

/// One capture group of a match: its name, when it has one, and the text it
/// matched, when it took part in the match.
#[derive(Clone, Debug)]
pub struct CaptureGroup {
    /// The group's name.
    pub name: Option<String>,
    /// The text the group matched.
    pub text: Option<String>,
}

/// The view of a capture group: its name and its matched text, as
/// characters.
pub open spec fn group_view(group: CaptureGroup) -> (Option<Seq<char>>, Option<Seq<char>>) {
    (
        match group.name {
            Some(n) => Some(n@),
            None => None,
        },
        match group.text {
            Some(t) => Some(t@),
            None => None,
        },
    )
}

/// The capture groups of the first match of `pattern` in `haystack`, in
/// group order (the implicit whole-match group first); `None` when the
/// pattern does not compile or does not match.
pub uninterp spec fn regex_groups(pattern: Seq<char>, haystack: Seq<char>) -> Option<
    Seq<(Option<Seq<char>>, Option<Seq<char>>)>,
>;

/// Compiles `pattern` with `regex::Regex::new` and, when it compiles, takes
/// the capture groups of its first match in `haystack` (`Regex::captures`,
/// paired group by group with `Regex::capture_names`); named by
/// [`regex_groups`].
#[verifier::external_body]
fn first_match_groups(pattern: &str, haystack: &str) -> (groups: Option<Vec<CaptureGroup>>)
    ensures
        match groups {
            Some(found) => regex_groups(pattern@, haystack@) == Some(
                found@.map_values(|g: CaptureGroup| group_view(g)),
            ),
            None => regex_groups(pattern@, haystack@) is None,
        },
{
    let regex = match regex::Regex::new(pattern) {
        Ok(regex) => regex,
        Err(_) => return None,
    };
    let captures = regex.captures(haystack)?;
    Some(
        regex
            .capture_names()
            .zip(captures.iter())
            .map(|(name, found)| CaptureGroup {
                name: name.map(|n| n.to_owned()),
                text: found.map(|m| m.as_str().to_owned()),
            })
            .collect(),
    )
}

/// Every field of `fields` is a string value named after a capture group
/// that has that name and matched exactly that text.
pub open spec fn fields_from_groups(
    fields: Seq<FieldValue>,
    groups: Seq<(Option<Seq<char>>, Option<Seq<char>>)>,
) -> bool {
    forall|i: int|
        #![trigger fields[i]]
        0 <= i < fields.len() ==> exists|j: int|
            #![trigger groups[j]]
            0 <= j < groups.len() && groups[j].0 == Some(fields[i].label@) && (*fields[i].value
                matches Value::Str(t) && groups[j].1 == Some(t@))
}

/// Every named group that matched has a field under its name.
pub open spec fn groups_in_fields(
    fields: Seq<FieldValue>,
    groups: Seq<(Option<Seq<char>>, Option<Seq<char>>)>,
) -> bool {
    forall|j: int|
        #![trigger groups[j]]
        0 <= j < groups.len() && groups[j].0 is Some && groups[j].1 is Some ==> exists|i: int|
            #![trigger fields[i]]
            0 <= i < fields.len() && fields[i].label@ == groups[j].0.unwrap()
}

/// The record a match's named groups make: each named group that took part
/// in the match, as a string field under its name, one field per name, in
/// ascending label order.
pub fn extraction_record(groups: Vec<CaptureGroup>) -> (c: Comp)
    ensures
        c matches Comp::Ret(v) && (*v matches Value::Record(fields) && fields_from_groups(
            fields@,
            groups@.map_values(|g: CaptureGroup| group_view(g)),
        ) && groups_in_fields(fields@, groups@.map_values(|g: CaptureGroup| group_view(g)))
            && labels_ascending(fields@)),
{
    let ghost view = groups@.map_values(|g: CaptureGroup| group_view(g));
    let mut fields: Vec<FieldValue> = Vec::new();
    let mut index: usize = 0;
    while index < groups.len()
        invariant
            index <= groups@.len(),
            view == groups@.map_values(|g: CaptureGroup| group_view(g)),
            fields_from_groups(fields@, view),
            groups_in_fields(fields@, view.subrange(0, index as int)),
            labels_ascending(fields@),
        decreases groups@.len() - index,
    {
        let group = &groups[index];
        let ghost before = fields@;
        match (&group.name, &group.text) {
            (Some(name), Some(text)) => {
                let field = FieldValue { label: name.clone(), value: Rc::new(Value::Str(text.clone())) };
                insert_field(&mut fields, field);
                proof {
                    lemma_overlay_keeps_ascending(before, field, fields@);
                    assert(view[index as int] == group_view(*group));
                    lemma_overlay_keeps_provenance(before, field, fields@, view, index as int);
                    lemma_overlay_keeps_labels(before, field, fields@);
                    let ghost prefix = view.subrange(0, index as int);
                    let ghost grown = view.subrange(0, index + 1);
                    assert forall|j: int|
                        #![trigger grown[j]]
                        0 <= j < grown.len() && grown[j].0 is Some && grown[j].1 is Some implies exists|i: int|
                        #![trigger fields@[i]]
                        0 <= i < fields@.len() && fields@[i].label@ == grown[j].0.unwrap() by {
                        if j < index {
                            assert(grown[j] == prefix[j]);
                            let i0 = choose|i: int|
                                #![trigger before[i]]
                                0 <= i < before.len() && before[i].label@ == prefix[j].0.unwrap();
                            assert(before[i0].label@ == prefix[j].0.unwrap());
                        } else {
                            assert(grown[j] == view[index as int]);
                        }
                    }
                }
            },
            _ => {
                proof {
                    assert(view[index as int] == group_view(*group));
                    let ghost prefix = view.subrange(0, index as int);
                    let ghost grown = view.subrange(0, index + 1);
                    assert forall|j: int|
                        #![trigger grown[j]]
                        0 <= j < grown.len() && grown[j].0 is Some && grown[j].1 is Some implies exists|i: int|
                        #![trigger fields@[i]]
                        0 <= i < fields@.len() && fields@[i].label@ == grown[j].0.unwrap() by {
                        assert(j < index);
                        assert(grown[j] == prefix[j]);
                    }
                }
            },
        }
        index = index + 1;
    }
    proof {
        assert(view.subrange(0, groups@.len() as int) =~= view);
    }
    Comp::Ret(Rc::new(Value::Record(fields)))
}

/// Overlaying a field drawn from group `at` keeps every field drawn from
/// some group.
proof fn lemma_overlay_keeps_provenance(
    before: Seq<FieldValue>,
    field: FieldValue,
    after: Seq<FieldValue>,
    groups: Seq<(Option<Seq<char>>, Option<Seq<char>>)>,
    at: int,
)
    requires
        overlay_field(before, field, after),
        fields_from_groups(before, groups),
        0 <= at < groups.len(),
        groups[at].0 == Some(field.label@),
        *field.value matches Value::Str(t) && groups[at].1 == Some(t@),
    ensures
        fields_from_groups(after, groups),
{
    assert forall|i: int| #![trigger after[i]] 0 <= i < after.len() implies exists|j: int|
        #![trigger groups[j]]
        0 <= j < groups.len() && groups[j].0 == Some(after[i].label@) && (*after[i].value matches Value::Str(
            t,
        ) && groups[j].1 == Some(t@)) by {
        if exists|k: int|
            #![trigger crate::prim::field_position(before, field.label@, k)]
            crate::prim::field_position(before, field.label@, k) && after == before.update(
                k,
                FieldValue { label: before[k].label, value: field.value },
            ) {
            let k = choose|k: int|
                #![trigger crate::prim::field_position(before, field.label@, k)]
                crate::prim::field_position(before, field.label@, k) && after == before.update(
                    k,
                    FieldValue { label: before[k].label, value: field.value },
                );
            if i != k {
                assert(after[i] == before[i]);
            } else {
                assert(after[i].label == before[k].label);
                assert(after[i].value == field.value);
            }
        } else {
            let k = choose|k: int|
                #![trigger before.insert(k, field)]
                0 <= k <= before.len() && after == before.insert(k, field) && (forall|m: int|
                    0 <= m < k ==> crate::text::lex_less(before[m].label@, field.label@)) && (k
                    < before.len() ==> !crate::text::lex_less(before[k].label@, field.label@));
            if i < k {
                assert(after[i] == before[i]);
            } else if i == k {
                assert(after[i] == field);
            } else {
                assert(after[i] == before[i - 1]);
            }
        }
    }
}

/// Overlaying a field keeps every label already present and adds the
/// field's own.
proof fn lemma_overlay_keeps_labels(before: Seq<FieldValue>, field: FieldValue, after: Seq<FieldValue>)
    requires
        overlay_field(before, field, after),
    ensures
        forall|i: int| #![trigger before[i]] 0 <= i < before.len() ==> exists|m: int|
            #![trigger after[m]]
            0 <= m < after.len() && after[m].label@ == before[i].label@,
        exists|m: int| #![trigger after[m]] 0 <= m < after.len() && after[m].label@ == field.label@,
{
    if exists|k: int|
        #![trigger crate::prim::field_position(before, field.label@, k)]
        crate::prim::field_position(before, field.label@, k) && after == before.update(
            k,
            FieldValue { label: before[k].label, value: field.value },
        ) {
        let k = choose|k: int|
            #![trigger crate::prim::field_position(before, field.label@, k)]
            crate::prim::field_position(before, field.label@, k) && after == before.update(
                k,
                FieldValue { label: before[k].label, value: field.value },
            );
        assert forall|i: int| #![trigger before[i]] 0 <= i < before.len() implies exists|m: int|
            #![trigger after[m]]
            0 <= m < after.len() && after[m].label@ == before[i].label@ by {
            assert(after[i].label == before[i].label);
        }
        assert(after[k].label@ == field.label@);
    } else {
        let k = choose|k: int|
            #![trigger before.insert(k, field)]
            0 <= k <= before.len() && after == before.insert(k, field) && (forall|m: int|
                0 <= m < k ==> crate::text::lex_less(before[m].label@, field.label@)) && (k
                < before.len() ==> !crate::text::lex_less(before[k].label@, field.label@));
        assert forall|i: int| #![trigger before[i]] 0 <= i < before.len() implies exists|m: int|
            #![trigger after[m]]
            0 <= m < after.len() && after[m].label@ == before[i].label@ by {
            if i < k {
                assert(after[i] == before[i]);
            } else {
                assert(after[i + 1] == before[i]);
            }
        }
        assert(after[k] == field);
    }
}

/// What `native_regex_extract` returns on `args`.
pub open spec fn native_regex_extract_outcome(args: Seq<Rc<Value>>, c: Comp) -> bool {
    &&& !(args.len() == 2 && str_of(*args[0]) is Some && str_of(*args[1]) is Some) ==> c
        == Comp::Hole(0)
    &&& args.len() == 2 && str_of(*args[0]) is Some && str_of(*args[1]) is Some ==> match regex_groups(
        str_of(*args[0]).unwrap(),
        str_of(*args[1]).unwrap(),
    ) {
        None => c == Comp::Hole(0),
        Some(groups) => c matches Comp::Ret(v) && (*v matches Value::Record(fields)
            && fields_from_groups(fields@, groups) && groups_in_fields(fields@, groups)
            && labels_ascending(fields@)),
    }
}

/// `extract pattern haystack` — the first match's named captures as a
/// record; a pattern that does not compile, or does not match, is a gradual
/// hole.
pub fn native_regex_extract(args: &[Rc<Value>]) -> (c: Comp)
    ensures
        native_regex_extract_outcome(args@, c),
{
    match two_args(args) {
        Some((pattern, haystack)) => match (as_str(&pattern), as_str(&haystack)) {
            (Some(pattern), Some(haystack)) => match first_match_groups(
                pattern.as_str(),
                haystack.as_str(),
            ) {
                Some(groups) => extraction_record(groups),
                None => Comp::hole(0),
            },
            _ => Comp::hole(0),
        },
        None => Comp::hole(0),
    }
}

/// Joins `child` onto `base` with `std::path::Path::join` and reads the
/// result back as UTF-8 text (`Path::to_str`). The result depends on the
/// platform's path conventions, so nothing is stated of it.
#[verifier::external_body]
fn join_paths(base: &str, child: &str) -> (joined: Option<String>) {
    match std::path::Path::new(base).join(child).to_str() {
        Some(text) => Some(text.to_owned()),
        None => None,
    }
}

/// The final component of `path` (`std::path::Path::file_name`), read back
/// as UTF-8 text. The result depends on the platform's path conventions, so
/// nothing is stated of it.
#[verifier::external_body]
fn path_file_name(path: &str) -> (name: Option<String>) {
    match std::path::Path::new(path).file_name() {
        Some(name) => match name.to_str() {
            Some(text) => Some(text.to_owned()),
            None => None,
        },
        None => None,
    }
}

/// The extension of `path`'s final component, without the dot
/// (`std::path::Path::extension`), read back as UTF-8 text. The result
/// depends on the platform's path conventions, so nothing is stated of it.
#[verifier::external_body]
fn path_extension(path: &str) -> (extension: Option<String>) {
    match std::path::Path::new(path).extension() {
        Some(extension) => match extension.to_str() {
            Some(text) => Some(text.to_owned()),
            None => None,
        },
        None => None,
    }
}

/// The computation a path primitive's answer makes: the text as a string
/// value, or a gradual hole when there is none.
pub fn path_result(answer: Option<String>) -> (c: Comp)
    ensures
        match answer {
            Some(text) => c matches Comp::Ret(v) && (*v matches Value::Str(t) && t@ == text@),
            None => c == Comp::Hole(0),
        },
{
    match answer {
        Some(text) => Comp::Ret(Rc::new(Value::Str(text))),
        None => Comp::hole(0),
    }
}

/// What `native_path_join` returns on `args`.
pub open spec fn native_path_join_outcome(args: Seq<Rc<Value>>, c: Comp) -> bool {
    &&& !(args.len() == 2 && str_of(*args[0]) is Some && str_of(*args[1]) is Some) ==> c
        == Comp::Hole(0)
    &&& c is Hole || (c matches Comp::Ret(v) && *v is Str)
}

/// `join base child` — UTF-8 path join over two manifest strings.
pub fn native_path_join(args: &[Rc<Value>]) -> (c: Comp)
    ensures
        native_path_join_outcome(args@, c),
{
    match two_args(args) {
        Some((base, child)) => match (as_str(&base), as_str(&child)) {
            (Some(base), Some(child)) => path_result(join_paths(base.as_str(), child.as_str())),
            _ => Comp::hole(0),
        },
        None => Comp::hole(0),
    }
}

/// What `native_path_basename` returns on `args`.
pub open spec fn native_path_basename_outcome(args: Seq<Rc<Value>>, c: Comp) -> bool {
    &&& !(args.len() == 1 && str_of(*args[0]) is Some) ==> c == Comp::Hole(0)
    &&& c is Hole || (c matches Comp::Ret(v) && *v is Str)
}

/// `basename path` — the final UTF-8 path component of a manifest string.
pub fn native_path_basename(args: &[Rc<Value>]) -> (c: Comp)
    ensures
        native_path_basename_outcome(args@, c),
{
    match one_arg(args) {
        Some(path) => match as_str(&path) {
            Some(path) => path_result(path_file_name(path.as_str())),
            None => Comp::hole(0),
        },
        None => Comp::hole(0),
    }
}

/// What `native_path_extension` returns on `args`.
pub open spec fn native_path_extension_outcome(args: Seq<Rc<Value>>, c: Comp) -> bool {
    &&& !(args.len() == 1 && str_of(*args[0]) is Some) ==> c == Comp::Hole(0)
    &&& c is Hole || (c matches Comp::Ret(v) && *v is Str)
}

/// `extension path` — the final UTF-8 extension of a manifest string,
/// without the dot.
pub fn native_path_extension(args: &[Rc<Value>]) -> (c: Comp)
    ensures
        native_path_extension_outcome(args@, c),
{
    match one_arg(args) {
        Some(path) => match as_str(&path) {
            Some(path) => path_result(path_extension(path.as_str())),
            None => Comp::hole(0),
        },
        None => Comp::hole(0),
    }
}

} // verus!
