//! The schema binder: validates that the set of field names a pattern
//! captures is exactly the set of fields of the target schema, producing a
//! bound, executable pattern or a precise binding error.

use vstd::prelude::*;
use vstd::slice::slice_to_vec;

use crate::convert::FieldTy;
use crate::parse::{
    capture_name, captures_of, lemma_captures_of_concat, lemma_parse_captures_distinct,
    spec_parse, token_views, Fmt, GrammarErrorView, GrammarError, Section, SectionView, Token,
};
use crate::text::text_eq;

verus! {

/// A field descriptor of the target schema: a name and a declared value type.
#[derive(Debug, PartialEq, Eq)]
pub struct Field {
    pub name: Vec<char>,
    pub ty: FieldTy,
}

/// The mathematical content of a [`Field`].
pub struct FieldView {
    pub name: Seq<char>,
    pub ty: FieldTy,
}

impl View for Field {
    type V = FieldView;

    open spec fn view(&self) -> FieldView {
        FieldView { name: self.name@, ty: self.ty }
    }
}

/// The views of a schema.
pub open spec fn field_views(fs: Seq<Field>) -> Seq<FieldView> {
    fs.map_values(|f: Field| f@)
}

/// The names of a schema, in declaration order.
pub open spec fn schema_names(fs: Seq<FieldView>) -> Seq<Seq<char>> {
    fs.map_values(|f: FieldView| f.name)
}

/// The first element of `xs`, in order, that is not in `allowed`, if any.
pub open spec fn first_not_in(xs: Seq<Seq<char>>, allowed: Set<Seq<char>>) -> Option<Seq<char>>
    decreases xs.len(),
{
    if xs.len() == 0 {
        None
    } else if !allowed.contains(xs.first()) {
        Some(xs.first())
    } else {
        first_not_in(xs.drop_first(), allowed)
    }
}

/// Failure to bind a pattern against a schema.
#[derive(Debug, PartialEq, Eq)]
pub enum BindingError {
    /// The pattern captures a name absent from the schema.
    UnknownField(Vec<char>),
    /// A schema field is never captured by the pattern.
    UnboundField(Vec<char>),
}

/// The mathematical content of a [`BindingError`].
pub enum BindingErrorView {
    UnknownField(Seq<char>),
    UnboundField(Seq<char>),
}

impl View for BindingError {
    type V = BindingErrorView;

    open spec fn view(&self) -> BindingErrorView {
        match self {
            BindingError::UnknownField(n) => BindingErrorView::UnknownField(n@),
            BindingError::UnboundField(n) => BindingErrorView::UnboundField(n@),
        }
    }
}

/// A pattern together with the schema it was proven to capture exactly: the
/// only object the matching engine accepts.
#[derive(Debug)]
pub struct BoundPattern {
    pub(crate) fmt: Fmt,
    pub(crate) schema: Vec<Field>,
}

impl BoundPattern {
    /// The sections of the bound pattern, in order.
    pub closed spec fn sections(&self) -> Seq<SectionView> {
        self.fmt@
    }

    /// The schema the pattern was bound against, in declaration order.
    pub closed spec fn schema(&self) -> Seq<FieldView> {
        field_views(self.schema@)
    }

    /// The bijection the binder established: the pattern's captured names,
    /// each captured by exactly one section, are exactly the schema's field
    /// names.
    #[verifier::type_invariant]
    pub open spec fn wf(&self) -> bool {
        &&& captures_of(self.sections()).to_set() == schema_names(self.schema()).to_set()
        &&& captures_of(self.sections()).no_duplicates()
    }

    /// How the spec-level sections and schema relate to the carried parts.
    pub(crate) proof fn lemma_parts(&self)
        ensures
            self.sections() == self.fmt@,
            self.schema() == field_views(self.schema@),
    {
    }
}

/// Splitting a scan of `xs + ys` for a missing element: the first violation
/// in the concatenation is the one in `xs` if any, else the one in `ys`.
pub proof fn lemma_first_not_in_concat(
    xs: Seq<Seq<char>>,
    ys: Seq<Seq<char>>,
    allowed: Set<Seq<char>>,
)
    ensures
        first_not_in(xs + ys, allowed) == if first_not_in(xs, allowed) is Some {
            first_not_in(xs, allowed)
        } else {
            first_not_in(ys, allowed)
        },
    decreases xs.len(),
{
    if xs.len() == 0 {
        assert(xs + ys =~= ys);
    } else {
        assert((xs + ys).first() == xs.first());
        assert((xs + ys).drop_first() =~= xs.drop_first() + ys);
        lemma_first_not_in_concat(xs.drop_first(), ys, allowed);
    }
}

/// A scan that finds nothing missing means every element is allowed.
pub proof fn lemma_first_not_in_none(xs: Seq<Seq<char>>, allowed: Set<Seq<char>>)
    requires
        first_not_in(xs, allowed) is None,
    ensures
        forall|k: int| 0 <= k < xs.len() ==> allowed.contains(#[trigger] xs[k]),
    decreases xs.len(),
{
    if xs.len() > 0 {
        lemma_first_not_in_none(xs.drop_first(), allowed);
        assert forall|k: int| 0 <= k < xs.len() implies allowed.contains(#[trigger] xs[k]) by {
            if k > 0 {
                assert(xs.drop_first()[k - 1] == xs[k]);
            }
        }
    }
}

/// A scan that finds something missing names an element of `xs` that is not
/// allowed.
pub proof fn lemma_first_not_in_some(xs: Seq<Seq<char>>, allowed: Set<Seq<char>>, x: Seq<char>)
    requires
        first_not_in(xs, allowed) == Some(x),
    ensures
        xs.contains(x),
        !allowed.contains(x),
    decreases xs.len(),
{
    if xs.len() > 0 {
        if !allowed.contains(xs.first()) {
            assert(xs[0] == x);
        } else {
            lemma_first_not_in_some(xs.drop_first(), allowed, x);
            let k = choose|k: int| 0 <= k < xs.drop_first().len() && xs.drop_first()[k] == x;
            assert(xs[k + 1] == x);
        }
    }
}

/// Bind a pattern against a schema.
///
/// The pattern must bind each of its captured names in exactly one section —
/// the invariant every pattern coming out of [`Fmt::parse`] has (see
/// `lemma_parse_captures_distinct`).  Scans the captured names in pattern
/// order and reports the first one that the schema lacks as
/// [`BindingError::UnknownField`]; then scans the schema names in
/// declaration order and reports the first one the pattern never captures as
/// [`BindingError::UnboundField`]; otherwise the two name sets are equal and
/// the bound pattern carries the sections and the schema unchanged.
pub fn bind(fmt: Fmt, schema: Vec<Field>) -> (r: Result<BoundPattern, BindingError>)
    requires
        captures_of(fmt@).no_duplicates(),
    ensures
        ({
            let cs = captures_of(fmt@);
            let ns = schema_names(field_views(schema@));
            match r {
                Ok(bp) => {
                    &&& first_not_in(cs, ns.to_set()) is None
                    &&& first_not_in(ns, cs.to_set()) is None
                    &&& bp.sections() == fmt@
                    &&& bp.schema() == field_views(schema@)
                },
                Err(e) => match e@ {
                    BindingErrorView::UnknownField(n) => first_not_in(cs, ns.to_set())
                        == Some(n),
                    BindingErrorView::UnboundField(n) => {
                        &&& first_not_in(cs, ns.to_set()) is None
                        &&& first_not_in(ns, cs.to_set()) == Some(n)
                    },
                },
            }
        }),
        r is Ok <==> captures_of(fmt@).to_set() == schema_names(field_views(schema@)).to_set(),
{
    let ghost cs = captures_of(fmt@);
    let ghost ns = schema_names(field_views(schema@));
    let n_secs = fmt.sections.len();
    let mut i: usize = 0;
    proof {
        assert(captures_of(fmt@.take(0)) =~= Seq::<Seq<char>>::empty());
    }
    while i < n_secs
        invariant
            0 <= i <= n_secs,
            n_secs == fmt.sections@.len(),
            cs == captures_of(fmt@),
            ns == schema_names(field_views(schema@)),
            first_not_in(captures_of(fmt@.take(i as int)), ns.to_set()) is None,
        decreases n_secs - i,
    {
        let name: Option<&Vec<char>> = match &fmt.sections[i] {
            Section::StrMatch(_) => None,
            Section::Capture(c) => Some(&c.field),
            Section::CaptureLookahead(c) => Some(&c.field),
        };
        proof {
            assert(fmt@.take(i + 1).drop_last() =~= fmt@.take(i as int));
            assert(fmt@.take(i + 1).last() == fmt@[i as int]);
            assert(fmt@[i as int] == fmt.sections@[i as int]@);
        }
        if let Some(nm) = name {
            if !schema_contains(&schema, nm.as_slice()) {
                proof {
                    let prefix = captures_of(fmt@.take(i + 1));
                    assert(prefix =~= captures_of(fmt@.take(i as int)) + seq![nm@]);
                    lemma_first_not_in_concat(
                        captures_of(fmt@.take(i as int)),
                        seq![nm@],
                        ns.to_set(),
                    );
                    assert(seq![nm@].drop_first() =~= Seq::<Seq<char>>::empty());
                    assert(first_not_in(prefix, ns.to_set()) == Some(nm@));
                    assert(fmt@ =~= fmt@.take(i + 1) + fmt@.skip(i + 1));
                    lemma_captures_of_concat(fmt@.take(i + 1), fmt@.skip(i + 1));
                    lemma_first_not_in_concat(
                        prefix,
                        captures_of(fmt@.skip(i + 1)),
                        ns.to_set(),
                    );
                    lemma_first_not_in_some(cs, ns.to_set(), nm@);
                }
                return Err(BindingError::UnknownField(slice_to_vec(nm.as_slice())));
            }
        }
        proof {
            let prefix = captures_of(fmt@.take(i + 1));
            assert(prefix =~= captures_of(fmt@.take(i as int)) + capture_name(fmt@[i as int]));
            lemma_first_not_in_concat(
                captures_of(fmt@.take(i as int)),
                capture_name(fmt@[i as int]),
                ns.to_set(),
            );
            assert(first_not_in(Seq::<Seq<char>>::empty(), ns.to_set()) is None);
            match fmt@[i as int] {
                SectionView::StrMatch { .. } => {
                    assert(capture_name(fmt@[i as int]) =~= Seq::<Seq<char>>::empty());
                },
                SectionView::Capture { field } => {
                    assert(ns.to_set().contains(field));
                    assert(seq![field].drop_first() =~= Seq::<Seq<char>>::empty());
                    assert(first_not_in(seq![field], ns.to_set()) is None);
                },
                SectionView::CaptureLookahead { field, .. } => {
                    assert(ns.to_set().contains(field));
                    assert(seq![field].drop_first() =~= Seq::<Seq<char>>::empty());
                    assert(first_not_in(seq![field], ns.to_set()) is None);
                },
            }
        }
        i = i + 1;
    }
    proof {
        assert(fmt@.take(n_secs as int) =~= fmt@);
        lemma_first_not_in_none(cs, ns.to_set());
    }
    let n_fields = schema.len();
    let mut k: usize = 0;
    proof {
        assert(ns.take(0) =~= Seq::<Seq<char>>::empty());
    }
    while k < n_fields
        invariant
            0 <= k <= n_fields,
            n_fields == schema@.len(),
            cs == captures_of(fmt@),
            ns == schema_names(field_views(schema@)),
            ns.len() == n_fields,
            forall|t: int| 0 <= t < n_fields ==> ns[t] == schema@[t]@.name,
            first_not_in(cs, ns.to_set()) is None,
            first_not_in(ns.take(k as int), cs.to_set()) is None,
        decreases n_fields - k,
    {
        if !pattern_captures(&fmt, schema[k].name.as_slice()) {
            proof {
                assert(ns.take(k + 1).drop_last() =~= ns.take(k as int));
                assert(ns.take(k + 1) =~= ns.take(k as int) + seq![ns[k as int]]);
                lemma_first_not_in_concat(ns.take(k as int), seq![ns[k as int]], cs.to_set());
                assert(seq![ns[k as int]].drop_first() =~= Seq::<Seq<char>>::empty());
                assert(first_not_in(ns.take(k + 1), cs.to_set()) == Some(ns[k as int]));
                assert(ns =~= ns.take(k + 1) + ns.skip(k + 1));
                lemma_first_not_in_concat(ns.take(k + 1), ns.skip(k + 1), cs.to_set());
                lemma_first_not_in_some(ns, cs.to_set(), ns[k as int]);
            }
            return Err(BindingError::UnboundField(slice_to_vec(schema[k].name.as_slice())));
        }
        proof {
            assert(ns.take(k + 1) =~= ns.take(k as int) + seq![ns[k as int]]);
            lemma_first_not_in_concat(ns.take(k as int), seq![ns[k as int]], cs.to_set());
            assert(seq![ns[k as int]].drop_first() =~= Seq::<Seq<char>>::empty());
            assert(cs.to_set().contains(ns[k as int]));
            assert(first_not_in(Seq::<Seq<char>>::empty(), cs.to_set()) is None);
            assert(first_not_in(seq![ns[k as int]], cs.to_set()) is None);
        }
        k = k + 1;
    }
    proof {
        assert(ns.take(n_fields as int) =~= ns);
        lemma_first_not_in_none(ns, cs.to_set());
        lemma_first_not_in_none(cs, ns.to_set());
        assert forall|x: Seq<char>| cs.to_set().contains(x) implies ns.to_set().contains(x) by {
            let t = choose|t: int| 0 <= t < cs.len() && cs[t] == x;
            assert(ns.to_set().contains(cs[t]));
        }
        assert forall|x: Seq<char>| ns.to_set().contains(x) implies cs.to_set().contains(x) by {
            let t = choose|t: int| 0 <= t < ns.len() && ns[t] == x;
            assert(cs.to_set().contains(ns[t]));
        }
        assert(cs.to_set() =~= ns.to_set());
    }
    Ok(BoundPattern { fmt, schema })
}

/// Failure to compile a specification against a schema: either the token
/// stream breaks the grammar, or the parsed pattern does not bind.
#[derive(Debug, PartialEq, Eq)]
pub enum CompileError {
    Grammar(GrammarError),
    Binding(BindingError),
}

/// The mathematical content of a [`CompileError`].
pub enum CompileErrorView {
    Grammar(GrammarErrorView),
    Binding(BindingErrorView),
}

impl View for CompileError {
    type V = CompileErrorView;

    open spec fn view(&self) -> CompileErrorView {
        match self {
            CompileError::Grammar(e) => CompileErrorView::Grammar(e@),
            CompileError::Binding(e) => CompileErrorView::Binding(e@),
        }
    }
}

/// Compile a specification, given as a token stream, against a schema: parse
/// the tokens into a pattern, then bind the pattern, producing the immutable
/// bound pattern that [`BoundPattern::match_input`] interprets per input.
pub fn compile(tokens: &Vec<Token>, schema: Vec<Field>) -> (r: Result<BoundPattern, CompileError>)
    ensures
        ({
            let parsed = spec_parse(token_views(tokens@));
            match r {
                Ok(bp) => {
                    &&& parsed == Ok::<_, GrammarErrorView>(bp.sections())
                    &&& bp.schema() == field_views(schema@)
                    &&& captures_of(bp.sections()).to_set() == schema_names(
                        field_views(schema@),
                    ).to_set()
                },
                Err(e) => match e@ {
                    CompileErrorView::Grammar(ge) => parsed == Err::<Seq<SectionView>, _>(ge),
                    CompileErrorView::Binding(be) => {
                        &&& parsed is Ok
                        &&& ({
                            let cs = captures_of(parsed->Ok_0);
                            let ns = schema_names(field_views(schema@));
                            match be {
                                BindingErrorView::UnknownField(n) => first_not_in(
                                    cs,
                                    ns.to_set(),
                                ) == Some(n),
                                BindingErrorView::UnboundField(n) => {
                                    &&& first_not_in(cs, ns.to_set()) is None
                                    &&& first_not_in(ns, cs.to_set()) == Some(n)
                                },
                            }
                        })
                    },
                },
            }
        }),
{
    let fmt = match Fmt::parse(tokens) {
        Ok(f) => f,
        Err(e) => {
            return Err(CompileError::Grammar(e));
        },
    };
    proof {
        lemma_parse_captures_distinct(token_views(tokens@), fmt@);
    }
    match bind(fmt, schema) {
        Ok(bp) => Ok(bp),
        Err(e) => Err(CompileError::Binding(e)),
    }
}

/// Whether the schema declares a field of the given name.
fn schema_contains(schema: &Vec<Field>, name: &[char]) -> (r: bool)
    ensures
        r == schema_names(field_views(schema@)).to_set().contains(name@),
{
    let ghost ns = schema_names(field_views(schema@));
    let n = schema.len();
    let mut k: usize = 0;
    while k < n
        invariant
            0 <= k <= n,
            n == schema@.len(),
            ns == schema_names(field_views(schema@)),
            ns.len() == n,
            forall|t: int| 0 <= t < n ==> ns[t] == schema@[t]@.name,
            forall|t: int| 0 <= t < k ==> ns[t] != name@,
        decreases n - k,
    {
        if text_eq(schema[k].name.as_slice(), name) {
            proof {
                assert(ns[k as int] == name@);
            }
            return true;
        }
        k = k + 1;
    }
    proof {
        if ns.to_set().contains(name@) {
            let t = choose|t: int| 0 <= t < ns.len() && ns[t] == name@;
        }
    }
    false
}

/// Whether the pattern captures the given name in any of its sections.
fn pattern_captures(fmt: &Fmt, name: &[char]) -> (r: bool)
    ensures
        r == captures_of(fmt@).to_set().contains(name@),
{
    crate::parse::captures_contain(&fmt.sections, name)
}

} // verus!
