//! The matching engine: interprets a bound pattern against an input text in
//! one linear pass, consuming the input left to right and accumulating field
//! bindings, stopping at the first failing section.

use vstd::prelude::*;
use vstd::slice::{slice_subrange, slice_to_vec};

use crate::bind::{BoundPattern, Field, FieldView};
use crate::convert::{clone_value, convert, spec_convert, FieldTy, Value, ValueView};
use crate::parse::{capture_name, captures_of, Section, SectionView};
use crate::text::{concat_all, find_at, find_from, is_match_at, occurs_at};

verus! {

/// Failure of a match, identifying the section that failed and the reason.
#[derive(Debug, PartialEq, Eq)]
pub enum MatchError {
    /// The input does not start with the expected literal at the current
    /// position.
    LiteralMismatch { expected: Vec<char>, section_index: usize },
    /// The expected delimiter does not occur in the remaining input.
    LookaheadNotFound { delimiter: Vec<char>, section_index: usize },
    /// The captured text could not be strictly converted to the field's type.
    ValueConversionFailed { field: Vec<char>, raw: Vec<char>, section_index: usize },
}

/// The mathematical content of a [`MatchError`].
pub enum MatchErrorView {
    LiteralMismatch { expected: Seq<char>, section_index: nat },
    LookaheadNotFound { delimiter: Seq<char>, section_index: nat },
    ValueConversionFailed { field: Seq<char>, raw: Seq<char>, section_index: nat },
}

impl View for MatchError {
    type V = MatchErrorView;

    open spec fn view(&self) -> MatchErrorView {
        match self {
            MatchError::LiteralMismatch { expected, section_index } =>
                MatchErrorView::LiteralMismatch {
                    expected: expected@,
                    section_index: *section_index as nat,
                },
            MatchError::LookaheadNotFound { delimiter, section_index } =>
                MatchErrorView::LookaheadNotFound {
                    delimiter: delimiter@,
                    section_index: *section_index as nat,
                },
            MatchError::ValueConversionFailed { field, raw, section_index } =>
                MatchErrorView::ValueConversionFailed {
                    field: field@,
                    raw: raw@,
                    section_index: *section_index as nat,
                },
        }
    }
}

/// One extracted field: a name and its converted value.
#[derive(Debug, PartialEq, Eq)]
pub struct Binding {
    pub name: Vec<char>,
    pub value: Value,
}

/// The mathematical content of a [`Binding`].
pub struct BindingView {
    pub name: Seq<char>,
    pub value: ValueView,
}

impl View for Binding {
    type V = BindingView;

    open spec fn view(&self) -> BindingView {
        BindingView { name: self.name@, value: self.value@ }
    }
}

/// The views of a list of bindings.
pub open spec fn binding_views(bs: Seq<Binding>) -> Seq<BindingView> {
    bs.map_values(|b: Binding| b@)
}

/// The mapping a list of bindings denotes: each binding's name to its value,
/// inserted in order.
pub open spec fn pairs_map(ps: Seq<BindingView>) -> Map<Seq<char>, ValueView>
    decreases ps.len(),
{
    if ps.len() == 0 {
        Map::empty()
    } else {
        pairs_map(ps.drop_last()).insert(ps.last().name, ps.last().value)
    }
}

/// The declared type of the first schema field of the given name (text if
/// the schema has no such field).
pub open spec fn ty_of(schema: Seq<FieldView>, name: Seq<char>) -> FieldTy
    decreases schema.len(),
{
    if schema.len() == 0 {
        FieldTy::Text
    } else if schema.first().name == name {
        schema.first().ty
    } else {
        ty_of(schema.drop_first(), name)
    }
}

/// The outcome of interpreting a section sequence: the accumulated bindings
/// and the position the input was consumed up to, or the first failure.
pub enum MatchOutcome {
    Matched { bindings: Map<Seq<char>, ValueView>, end: nat },
    Failed { error: MatchErrorView },
}

/// What matching sections `i..` of a pattern against `input` from position
/// `pos` yields, with the bindings accumulated so far in `acc`.
///
/// A literal section requires the input to continue with its text and
/// consumes it.  A final capture converts the entire remaining input,
/// strictly, to the field's declared type.  A lookahead capture splits the
/// remaining input at the leftmost occurrence of its delimiter, converts the
/// text before it, and consumes through the delimiter.  The first failing
/// section decides the error.
pub open spec fn spec_match(
    secs: Seq<SectionView>,
    schema: Seq<FieldView>,
    input: Seq<char>,
    i: nat,
    pos: nat,
    acc: Map<Seq<char>, ValueView>,
) -> MatchOutcome
    decreases secs.len() - i,
{
    if i >= secs.len() {
        MatchOutcome::Matched { bindings: acc, end: pos }
    } else {
        match secs[i as int] {
            SectionView::StrMatch { lit } => if occurs_at(input, lit, pos) {
                spec_match(secs, schema, input, (i + 1) as nat, (pos + lit.len()) as nat, acc)
            } else {
                MatchOutcome::Failed {
                    error: MatchErrorView::LiteralMismatch { expected: lit, section_index: i },
                }
            },
            SectionView::Capture { field } => {
                let raw = input.subrange(pos as int, input.len() as int);
                match spec_convert(ty_of(schema, field), raw) {
                    Some(v) => spec_match(
                        secs,
                        schema,
                        input,
                        (i + 1) as nat,
                        input.len(),
                        acc.insert(field, v),
                    ),
                    None => MatchOutcome::Failed {
                        error: MatchErrorView::ValueConversionFailed {
                            field,
                            raw,
                            section_index: i,
                        },
                    },
                }
            },
            SectionView::CaptureLookahead { field, lookahead } => {
                match find_from(input, lookahead, pos) {
                    None => MatchOutcome::Failed {
                        error: MatchErrorView::LookaheadNotFound {
                            delimiter: lookahead,
                            section_index: i,
                        },
                    },
                    Some(j) => {
                        let raw = input.subrange(pos as int, j as int);
                        match spec_convert(ty_of(schema, field), raw) {
                            Some(v) => spec_match(
                                secs,
                                schema,
                                input,
                                (i + 1) as nat,
                                (j + lookahead.len()) as nat,
                                acc.insert(field, v),
                            ),
                            None => MatchOutcome::Failed {
                                error: MatchErrorView::ValueConversionFailed {
                                    field,
                                    raw,
                                    section_index: i,
                                },
                            },
                        }
                    },
                }
            },
        }
    }
}

/// The pieces of input a match consumes from section `i` on, in order: the
/// text of each matched literal, the raw text of each capture, and each
/// delimiter a lookahead capture advanced past (empty once a section fails).
pub open spec fn spec_pieces(
    secs: Seq<SectionView>,
    schema: Seq<FieldView>,
    input: Seq<char>,
    i: nat,
    pos: nat,
) -> Seq<Seq<char>>
    decreases secs.len() - i,
{
    if i >= secs.len() {
        Seq::empty()
    } else {
        match secs[i as int] {
            SectionView::StrMatch { lit } => if occurs_at(input, lit, pos) {
                seq![lit] + spec_pieces(secs, schema, input, (i + 1) as nat,
                    (pos + lit.len()) as nat)
            } else {
                Seq::empty()
            },
            SectionView::Capture { field } => {
                let raw = input.subrange(pos as int, input.len() as int);
                match spec_convert(ty_of(schema, field), raw) {
                    Some(_) => seq![raw] + spec_pieces(secs, schema, input, (i + 1) as nat,
                        input.len()),
                    None => Seq::empty(),
                }
            },
            SectionView::CaptureLookahead { field, lookahead } => {
                match find_from(input, lookahead, pos) {
                    None => Seq::empty(),
                    Some(j) => {
                        let raw = input.subrange(pos as int, j as int);
                        match spec_convert(ty_of(schema, field), raw) {
                            Some(_) => seq![raw, lookahead] + spec_pieces(secs, schema, input,
                                (i + 1) as nat, (j + lookahead.len()) as nat),
                            None => Seq::empty(),
                        }
                    },
                }
            },
        }
    }
}

/// Consumption accounting: on a successful match, concatenating the matched
/// literals and the captured raw texts (with the delimiters crossed), in
/// order, reconstructs exactly the consumed part of the input.
pub proof fn lemma_match_consumes_prefix(
    secs: Seq<SectionView>,
    schema: Seq<FieldView>,
    input: Seq<char>,
    i: nat,
    pos: nat,
    acc: Map<Seq<char>, ValueView>,
)
    requires
        i <= secs.len(),
        pos <= input.len(),
        spec_match(secs, schema, input, i, pos, acc) is Matched,
    ensures
        ({
            let out = spec_match(secs, schema, input, i, pos, acc);
            &&& pos <= out->end <= input.len()
            &&& concat_all(spec_pieces(secs, schema, input, i, pos)) == input.subrange(
                pos as int,
                out->end as int,
            )
        }),
    decreases secs.len() - i,
{
    let out = spec_match(secs, schema, input, i, pos, acc);
    if i >= secs.len() {
        assert(concat_all(Seq::<Seq<char>>::empty()) == Seq::<char>::empty());
        assert(input.subrange(pos as int, pos as int) =~= Seq::<char>::empty());
    } else {
        match secs[i as int] {
            SectionView::StrMatch { lit } => {
                assert(occurs_at(input, lit, pos));
                let pos2 = (pos + lit.len()) as nat;
                lemma_match_consumes_prefix(secs, schema, input, (i + 1) as nat, pos2, acc);
                let rest = spec_pieces(secs, schema, input, (i + 1) as nat, pos2);
                assert((seq![lit] + rest).first() == lit);
                assert((seq![lit] + rest).drop_first() =~= rest);
                assert(concat_all(seq![lit] + rest) == lit + concat_all(rest));
                assert(input.subrange(pos as int, pos2 as int)
                    + input.subrange(pos2 as int, out->end as int)
                    =~= input.subrange(pos as int, out->end as int));
            },
            SectionView::Capture { field } => {
                let raw = input.subrange(pos as int, input.len() as int);
                assert(spec_convert(ty_of(schema, field), raw) is Some);
                let acc2 = acc.insert(field, spec_convert(ty_of(schema, field), raw)->0);
                lemma_match_consumes_prefix(secs, schema, input, (i + 1) as nat, input.len(),
                    acc2);
                assert(out->end == input.len());
                let rest = spec_pieces(secs, schema, input, (i + 1) as nat, input.len());
                assert(concat_all(rest) =~= Seq::<char>::empty());
                assert((seq![raw] + rest).first() == raw);
                assert((seq![raw] + rest).drop_first() =~= rest);
                assert(concat_all(seq![raw] + rest) =~= raw);
            },
            SectionView::CaptureLookahead { field, lookahead } => {
                assert(find_from(input, lookahead, pos) is Some);
                let j = find_from(input, lookahead, pos)->0;
                crate::text::lemma_find_from_leftmost(input, lookahead, pos);
                let raw = input.subrange(pos as int, j as int);
                assert(spec_convert(ty_of(schema, field), raw) is Some);
                let acc2 = acc.insert(field, spec_convert(ty_of(schema, field), raw)->0);
                let pos2 = (j + lookahead.len()) as nat;
                lemma_match_consumes_prefix(secs, schema, input, (i + 1) as nat, pos2, acc2);
                let rest = spec_pieces(secs, schema, input, (i + 1) as nat, pos2);
                assert((seq![raw, lookahead] + rest).first() == raw);
                assert((seq![raw, lookahead] + rest).drop_first() =~= seq![lookahead] + rest);
                assert((seq![lookahead] + rest).first() == lookahead);
                assert((seq![lookahead] + rest).drop_first() =~= rest);
                assert(concat_all(seq![lookahead] + rest) == lookahead + concat_all(rest));
                assert(concat_all(seq![raw, lookahead] + rest)
                    == raw + (lookahead + concat_all(rest)));
                assert(lookahead == input.subrange(j as int, pos2 as int));
                assert(input.subrange(j as int, pos2 as int)
                    + input.subrange(pos2 as int, out->end as int)
                    =~= input.subrange(j as int, out->end as int));
                assert(input.subrange(pos as int, j as int)
                    + input.subrange(j as int, out->end as int)
                    =~= input.subrange(pos as int, out->end as int));
                assert(raw + (lookahead + concat_all(rest))
                    =~= input.subrange(pos as int, out->end as int));
            },
        }
    }
}

/// The empty pattern matches any input, consuming and binding nothing.
pub proof fn lemma_empty_pattern_matches(schema: Seq<FieldView>, input: Seq<char>)
    ensures
        spec_match(Seq::empty(), schema, input, 0, 0, Map::empty())
            == (MatchOutcome::Matched { bindings: Map::<Seq<char>, ValueView>::empty(), end: 0nat }),
{
}

/// Whole-string strictness at a final capture: with an integer-typed field
/// the match fails on exactly the remainders that are not, whole, a strict
/// integer text; with a text-typed field it always proceeds, binding the
/// remainder unchanged.
pub proof fn lemma_final_capture_strict(
    secs: Seq<SectionView>,
    schema: Seq<FieldView>,
    input: Seq<char>,
    i: nat,
    pos: nat,
    acc: Map<Seq<char>, ValueView>,
    field: Seq<char>,
)
    requires
        i < secs.len(),
        pos <= input.len(),
        secs[i as int] == (SectionView::Capture { field }),
    ensures
        ({
            let raw = input.subrange(pos as int, input.len() as int);
            let out = spec_match(secs, schema, input, i, pos, acc);
            &&& (ty_of(schema, field) == FieldTy::Int && !crate::convert::int_ok(raw))
                ==> out == (MatchOutcome::Failed {
                    error: MatchErrorView::ValueConversionFailed { field, raw, section_index: i },
                })
            &&& ty_of(schema, field) == FieldTy::Text ==> out == spec_match(
                secs,
                schema,
                input,
                (i + 1) as nat,
                input.len(),
                acc.insert(field, ValueView::Text(raw)),
            )
        }),
{
}

/// Whole-string strictness at a lookahead capture whose delimiter was found
/// at `j`: with an integer-typed field the match fails on exactly the
/// candidates that are not, whole, a strict integer text; with a text-typed
/// field it always proceeds, binding the candidate unchanged.
pub proof fn lemma_lookahead_capture_strict(
    secs: Seq<SectionView>,
    schema: Seq<FieldView>,
    input: Seq<char>,
    i: nat,
    pos: nat,
    acc: Map<Seq<char>, ValueView>,
    field: Seq<char>,
    lookahead: Seq<char>,
    j: nat,
)
    requires
        i < secs.len(),
        pos <= input.len(),
        secs[i as int] == (SectionView::CaptureLookahead { field, lookahead }),
        find_from(input, lookahead, pos) == Some(j),
    ensures
        ({
            let raw = input.subrange(pos as int, j as int);
            let out = spec_match(secs, schema, input, i, pos, acc);
            &&& (ty_of(schema, field) == FieldTy::Int && !crate::convert::int_ok(raw))
                ==> out == (MatchOutcome::Failed {
                    error: MatchErrorView::ValueConversionFailed { field, raw, section_index: i },
                })
            &&& ty_of(schema, field) == FieldTy::Text ==> out == spec_match(
                secs,
                schema,
                input,
                (i + 1) as nat,
                (j + lookahead.len()) as nat,
                acc.insert(field, ValueView::Text(raw)),
            )
        }),
{
}

/// Leftmost-match: when the delimiter of a lookahead capture occurs at
/// position `j` of the input and at no earlier position past the cursor, the
/// captured candidate is exactly the text from the cursor up to `j`, whatever
/// later occurrences exist.
pub proof fn lemma_lookahead_takes_leftmost(
    secs: Seq<SectionView>,
    schema: Seq<FieldView>,
    input: Seq<char>,
    i: nat,
    pos: nat,
    acc: Map<Seq<char>, ValueView>,
    field: Seq<char>,
    lookahead: Seq<char>,
    j: nat,
)
    requires
        i < secs.len(),
        pos <= input.len(),
        secs[i as int] == (SectionView::CaptureLookahead { field, lookahead }),
        pos <= j,
        occurs_at(input, lookahead, j),
        forall|k: nat| pos <= k < j ==> !occurs_at(input, lookahead, k),
    ensures
        ({
            let raw = input.subrange(pos as int, j as int);
            let out = spec_match(secs, schema, input, i, pos, acc);
            &&& find_from(input, lookahead, pos) == Some(j)
            &&& match spec_convert(ty_of(schema, field), raw) {
                Some(v) => out == spec_match(
                    secs,
                    schema,
                    input,
                    (i + 1) as nat,
                    (j + lookahead.len()) as nat,
                    acc.insert(field, v),
                ),
                None => out == (MatchOutcome::Failed {
                    error: MatchErrorView::ValueConversionFailed { field, raw, section_index: i },
                }),
            }
        }),
{
    crate::text::lemma_find_from_of_leftmost(input, lookahead, pos, j);
}

/// Appending a binding to a list updates the mapping it denotes.
proof fn lemma_pairs_map_push(ps: Seq<BindingView>, b: BindingView)
    ensures
        pairs_map(ps.push(b)) == pairs_map(ps).insert(b.name, b.value),
{
    assert(ps.push(b).drop_last() =~= ps);
    assert(ps.push(b).last() == b);
}

/// A successful match binds every name the pattern captures from section `i`
/// on (and keeps everything already accumulated).
pub proof fn lemma_match_binds(
    secs: Seq<SectionView>,
    schema: Seq<FieldView>,
    input: Seq<char>,
    i: nat,
    pos: nat,
    acc: Map<Seq<char>, ValueView>,
    n: Seq<char>,
)
    requires
        i <= secs.len(),
        spec_match(secs, schema, input, i, pos, acc) is Matched,
        acc.contains_key(n) || captures_of(secs.skip(i as int)).contains(n),
    ensures
        (spec_match(secs, schema, input, i, pos, acc)->bindings).contains_key(n),
    decreases secs.len() - i,
{
    if i >= secs.len() {
        assert(secs.skip(i as int) =~= Seq::<SectionView>::empty());
        if captures_of(secs.skip(i as int)).contains(n) {
            assert(false);
        }
    } else {
        let s = secs[i as int];
        assert(secs.skip(i as int) =~= seq![s] + secs.skip(i as int + 1));
        crate::parse::lemma_captures_of_concat(seq![s], secs.skip(i as int + 1));
        assert(seq![s].drop_last() =~= Seq::<SectionView>::empty());
        assert(captures_of(Seq::<SectionView>::empty()) =~= Seq::<Seq<char>>::empty());
        assert(captures_of(seq![s]) == captures_of(Seq::<SectionView>::empty()) + capture_name(s));
        assert(captures_of(seq![s]) =~= capture_name(s));
        let head = capture_name(s);
        let tail = captures_of(secs.skip(i as int + 1));
        assert(captures_of(secs.skip(i as int)) == head + tail);
        match s {
            SectionView::StrMatch { lit } => {
                assert(head + tail =~= tail);
                lemma_match_binds(secs, schema, input, (i + 1) as nat,
                    (pos + lit.len()) as nat, acc, n);
            },
            SectionView::Capture { field } => {
                let raw = input.subrange(pos as int, input.len() as int);
                let v = spec_convert(ty_of(schema, field), raw)->0;
                let acc2 = acc.insert(field, v);
                if !acc2.contains_key(n) {
                    assert(n != field);
                    assert((head + tail).contains(n));
                    let t = choose|t: int| 0 <= t < (head + tail).len()
                        && (head + tail)[t] == n;
                    assert(t >= 1);
                    assert(tail[t - 1] == n);
                }
                lemma_match_binds(secs, schema, input, (i + 1) as nat, input.len(), acc2, n);
            },
            SectionView::CaptureLookahead { field, lookahead } => {
                let j = find_from(input, lookahead, pos)->0;
                let raw = input.subrange(pos as int, j as int);
                let v = spec_convert(ty_of(schema, field), raw)->0;
                let acc2 = acc.insert(field, v);
                if !acc2.contains_key(n) {
                    assert(n != field);
                    assert((head + tail).contains(n));
                    let t = choose|t: int| 0 <= t < (head + tail).len()
                        && (head + tail)[t] == n;
                    assert(t >= 1);
                    assert(tail[t - 1] == n);
                }
                lemma_match_binds(secs, schema, input, (i + 1) as nat,
                    (j + lookahead.len()) as nat, acc2, n);
            },
        }
    }
}

/// The declared type of the first schema field named `name`, or text if the
/// schema has no such field.
fn ty_lookup(schema: &Vec<Field>, name: &[char]) -> (r: FieldTy)
    ensures
        r == ty_of(crate::bind::field_views(schema@), name@),
{
    let ghost fvs = crate::bind::field_views(schema@);
    let n = schema.len();
    let mut k: usize = 0;
    proof {
        assert(fvs.skip(0) =~= fvs);
    }
    while k < n
        invariant
            0 <= k <= n,
            n == schema@.len(),
            fvs == crate::bind::field_views(schema@),
            fvs.len() == n,
            forall|t: int| 0 <= t < n ==> fvs[t] == schema@[t]@,
            ty_of(fvs, name@) == ty_of(fvs.skip(k as int), name@),
        decreases n - k,
    {
        proof {
            assert(fvs.skip(k as int).first() == fvs[k as int]);
            assert(fvs.skip(k as int).drop_first() =~= fvs.skip(k + 1));
        }
        if crate::text::text_eq(schema[k].name.as_slice(), name) {
            return schema[k].ty;
        }
        k = k + 1;
    }
    proof {
        assert(fvs.skip(n as int) =~= Seq::<FieldView>::empty());
    }
    FieldTy::Text
}

/// The index of the binding that decides `name` in the mapping the list
/// denotes: the last binding of that name, if there is one.
fn lookup_pairs(pairs: &Vec<Binding>, name: &[char]) -> (r: Option<usize>)
    ensures
        ({
            let m = pairs_map(binding_views(pairs@));
            match r {
                Some(idx) => {
                    &&& idx < pairs@.len()
                    &&& pairs@[idx as int]@.name == name@
                    &&& m.contains_key(name@)
                    &&& m[name@] == pairs@[idx as int]@.value
                },
                None => !m.contains_key(name@),
            }
        }),
{
    let n = pairs.len();
    let mut best: Option<usize> = None;
    let mut k: usize = 0;
    proof {
        assert(binding_views(pairs@.take(0)) =~= Seq::<BindingView>::empty());
    }
    while k < n
        invariant
            0 <= k <= n,
            n == pairs@.len(),
            ({
                let m = pairs_map(binding_views(pairs@.take(k as int)));
                match best {
                    Some(idx) => {
                        &&& idx < k
                        &&& pairs@[idx as int]@.name == name@
                        &&& m.contains_key(name@)
                        &&& m[name@] == pairs@[idx as int]@.value
                    },
                    None => !m.contains_key(name@),
                }
            }),
        decreases n - k,
    {
        proof {
            assert(pairs@.take(k + 1).drop_last() =~= pairs@.take(k as int));
            assert(binding_views(pairs@.take(k + 1)).drop_last()
                =~= binding_views(pairs@.take(k as int)));
            assert(binding_views(pairs@.take(k + 1)).last() == pairs@[k as int]@);
            assert(pairs_map(binding_views(pairs@.take(k + 1)))
                == pairs_map(binding_views(pairs@.take(k as int))).insert(
                    pairs@[k as int]@.name,
                    pairs@[k as int]@.value,
                ));
        }
        if crate::text::text_eq(pairs[k].name.as_slice(), name) {
            best = Some(k);
        }
        k = k + 1;
    }
    proof {
        assert(pairs@.take(n as int) =~= pairs@);
    }
    best
}

impl BoundPattern {
    /// Match sections `i..` against `input` from position `pos`, extending
    /// the bindings accumulated in `acc`, exactly as `spec_match` describes.
    fn match_from(&self, input: &[char], i: usize, pos: usize, acc: Vec<Binding>) -> (r: Result<
        (Vec<Binding>, usize),
        MatchError,
    >)
        requires
            i <= self.sections().len(),
            pos <= input@.len(),
        ensures
            ({
                let out = spec_match(
                    self.sections(),
                    self.schema(),
                    input@,
                    i as nat,
                    pos as nat,
                    pairs_map(binding_views(acc@)),
                );
                match r {
                    Ok((ps, end)) => {
                        &&& out is Matched
                        &&& pairs_map(binding_views(ps@)) == out->bindings
                        &&& end == out->end
                        &&& end <= input@.len()
                    },
                    Err(e) => out is Failed && e@ == out->error,
                }
            }),
        decreases self.sections().len() - i,
    {
        proof {
            self.lemma_parts();
        }
        let n_secs = self.fmt.sections.len();
        if i >= n_secs {
            return Ok((acc, pos));
        }
        let ghost sv = self.sections()[i as int];
        proof {
            assert(sv == self.fmt.sections@[i as int]@);
        }
        match &self.fmt.sections[i] {
            Section::StrMatch(sm) => {
                let lit = &sm.lit;
                if lit.len() <= input.len() - pos && is_match_at(input, pos, lit.as_slice()) {
                    self.match_from(input, i + 1, pos + lit.len(), acc)
                } else {
                    proof {
                        assert(!occurs_at(input@, lit@, pos as nat));
                    }
                    Err(MatchError::LiteralMismatch {
                        expected: slice_to_vec(lit.as_slice()),
                        section_index: i,
                    })
                }
            },
            Section::Capture(c) => {
                let ty = ty_lookup(&self.schema, c.field.as_slice());
                let raw = slice_subrange(input, pos, input.len());
                match convert(ty, raw) {
                    Some(v) => {
                        let mut acc = acc;
                        let ghost old_views = binding_views(acc@);
                        let b = Binding { name: slice_to_vec(c.field.as_slice()), value: v };
                        proof {
                            assert(binding_views(acc@.push(b)) =~= old_views.push(b@));
                            lemma_pairs_map_push(old_views, b@);
                        }
                        acc.push(b);
                        self.match_from(input, i + 1, input.len(), acc)
                    },
                    None => Err(MatchError::ValueConversionFailed {
                        field: slice_to_vec(c.field.as_slice()),
                        raw: slice_to_vec(raw),
                        section_index: i,
                    }),
                }
            },
            Section::CaptureLookahead(cl) => {
                match find_at(input, pos, cl.lookahead.as_slice()) {
                    None => Err(MatchError::LookaheadNotFound {
                        delimiter: slice_to_vec(cl.lookahead.as_slice()),
                        section_index: i,
                    }),
                    Some(j) => {
                        let ilen = input.len();
                        proof {
                            crate::text::lemma_find_from_leftmost(
                                input@,
                                cl.lookahead@,
                                pos as nat,
                            );
                            assert(j + cl.lookahead@.len() <= ilen);
                        }
                        let ty = ty_lookup(&self.schema, cl.field.as_slice());
                        let raw = slice_subrange(input, pos, j);
                        match convert(ty, raw) {
                            Some(v) => {
                                let mut acc = acc;
                                let ghost old_views = binding_views(acc@);
                                let b = Binding {
                                    name: slice_to_vec(cl.field.as_slice()),
                                    value: v,
                                };
                                proof {
                                    assert(binding_views(acc@.push(b)) =~= old_views.push(b@));
                                    lemma_pairs_map_push(old_views, b@);
                                }
                                acc.push(b);
                                self.match_from(input, i + 1, j + cl.lookahead.len(), acc)
                            },
                            None => Err(MatchError::ValueConversionFailed {
                                field: slice_to_vec(cl.field.as_slice()),
                                raw: slice_to_vec(raw),
                                section_index: i,
                            }),
                        }
                    },
                }
            },
        }
    }

    /// Match the bound pattern against an input text.
    ///
    /// On success the result holds one binding per schema field, in the
    /// schema's declaration order, each carrying the value the match bound to
    /// that field's name; on failure it reports the first failing section,
    /// exactly as `spec_match` describes.
    pub fn match_input(&self, input: &[char]) -> (r: Result<Vec<Binding>, MatchError>)
        ensures
            ({
                let out = spec_match(
                    self.sections(),
                    self.schema(),
                    input@,
                    0,
                    0,
                    Map::empty(),
                );
                match r {
                    Ok(bs) => {
                        &&& out is Matched
                        &&& bs@.len() == self.schema().len()
                        &&& forall|t: int| 0 <= t < bs@.len() ==> {
                            &&& (#[trigger] bs@[t])@.name == self.schema()[t].name
                            &&& bs@[t]@.value == out->bindings[self.schema()[t].name]
                        }
                    },
                    Err(e) => out is Failed && e@ == out->error,
                }
            }),
    {
        proof {
            use_type_invariant(&*self);
            self.lemma_parts();
            assert(binding_views(Seq::<Binding>::empty()) =~= Seq::<BindingView>::empty());
            assert(pairs_map(Seq::<BindingView>::empty())
                == Map::<Seq<char>, ValueView>::empty());
        }
        let empty_acc: Vec<Binding> = Vec::new();
        let (pairs, _end) = match self.match_from(input, 0, 0, empty_acc) {
            Ok(p) => p,
            Err(e) => {
                return Err(e);
            },
        };
        let ghost out = spec_match(self.sections(), self.schema(), input@, 0, 0, Map::empty());
        let ghost m = out->bindings;
        proof {
            assert forall|t: int| 0 <= t < self.schema().len() implies m.contains_key(
                #[trigger] self.schema()[t].name,
            ) by {
                let n = self.schema()[t].name;
                assert(crate::bind::schema_names(self.schema())[t] == n);
                assert(crate::bind::schema_names(self.schema()).to_set().contains(n));
                assert(captures_of(self.sections()).contains(n));
                assert(self.sections().skip(0) =~= self.sections());
                lemma_match_binds(
                    self.sections(),
                    self.schema(),
                    input@,
                    0,
                    0,
                    Map::empty(),
                    n,
                );
            }
        }
        let n_fields = self.schema.len();
        let mut bound: Vec<Binding> = Vec::new();
        let mut k: usize = 0;
        while k < n_fields
            invariant
                0 <= k <= n_fields,
                n_fields == self.schema@.len(),
                n_fields == self.schema().len(),
                m == pairs_map(binding_views(pairs@)),
                forall|t: int| 0 <= t < n_fields ==> m.contains_key(
                    #[trigger] self.schema()[t].name,
                ),
                forall|t: int| 0 <= t < n_fields ==> self.schema()[t]
                    == self.schema@[t]@,
                bound@.len() == k,
                forall|t: int| 0 <= t < k ==> {
                    &&& (#[trigger] bound@[t])@.name == self.schema()[t].name
                    &&& bound@[t]@.value == m[self.schema()[t].name]
                },
            decreases n_fields - k,
        {
            let name = self.schema[k].name.as_slice();
            match lookup_pairs(&pairs, name) {
                Some(idx) => {
                    let v = clone_value(&pairs[idx].value);
                    bound.push(Binding { name: slice_to_vec(name), value: v });
                },
                None => {
                    proof {
                        assert(m.contains_key(self.schema()[k as int].name));
                        assert(self.schema()[k as int].name == name@);
                        assert(false);
                    }
                },
            }
            k = k + 1;
        }
        Ok(bound)
    }
}

} // verus!
