//! The pattern parser: assembles a stream of literal and identifier tokens
//! into an ordered list of sections with one token of lookahead, so that
//! matching can later be a single linear pass.

use vstd::prelude::*;
use vstd::slice::slice_to_vec;

use crate::text::text_eq;

verus! {

/// A lexical unit of a pattern: a quoted literal or a bare field identifier.
#[derive(Debug, PartialEq, Eq)]
pub enum Token {
    Lit(Vec<char>),
    Ident(Vec<char>),
}

/// The mathematical content of a [`Token`].
pub enum TokenView {
    Lit(Seq<char>),
    Ident(Seq<char>),
}

impl View for Token {
    type V = TokenView;

    open spec fn view(&self) -> TokenView {
        match self {
            Token::Lit(t) => TokenView::Lit(t@),
            Token::Ident(f) => TokenView::Ident(f@),
        }
    }
}

/// Require the input to start with a fixed text at the current position.
#[derive(Debug, PartialEq, Eq)]
pub struct StrMatch {
    pub lit: Vec<char>,
}

/// Consume and convert the entire remaining input into a field.
#[derive(Debug, PartialEq, Eq)]
pub struct Capture {
    pub field: Vec<char>,
}

/// Capture the text before the leftmost occurrence of a delimiter into a
/// field, then advance past the delimiter.
#[derive(Debug, PartialEq, Eq)]
pub struct CaptureLookahead {
    pub field: Vec<char>,
    pub lookahead: Vec<char>,
}

/// One compiled step of a pattern.
#[derive(Debug, PartialEq, Eq)]
pub enum Section {
    StrMatch(StrMatch),
    Capture(Capture),
    CaptureLookahead(CaptureLookahead),
}

/// The mathematical content of a [`Section`].
pub enum SectionView {
    StrMatch { lit: Seq<char> },
    Capture { field: Seq<char> },
    CaptureLookahead { field: Seq<char>, lookahead: Seq<char> },
}

impl View for Section {
    type V = SectionView;

    open spec fn view(&self) -> SectionView {
        match self {
            Section::StrMatch(s) => SectionView::StrMatch { lit: s.lit@ },
            Section::Capture(c) => SectionView::Capture { field: c.field@ },
            Section::CaptureLookahead(c) => SectionView::CaptureLookahead {
                field: c.field@,
                lookahead: c.lookahead@,
            },
        }
    }
}

/// A complete compiled pattern: an ordered sequence of sections.
#[derive(Debug, PartialEq, Eq)]
pub struct Fmt {
    pub sections: Vec<Section>,
}

impl View for Fmt {
    type V = Seq<SectionView>;

    open spec fn view(&self) -> Seq<SectionView> {
        self.sections@.map_values(|s: Section| s@)
    }
}

/// The field name a section captures, if any.
pub open spec fn capture_name(s: SectionView) -> Seq<Seq<char>> {
    match s {
        SectionView::StrMatch { .. } => Seq::empty(),
        SectionView::Capture { field } => seq![field],
        SectionView::CaptureLookahead { field, .. } => seq![field],
    }
}

/// The field names a pattern captures, in pattern order.
pub open spec fn captures_of(secs: Seq<SectionView>) -> Seq<Seq<char>>
    decreases secs.len(),
{
    if secs.len() == 0 {
        Seq::empty()
    } else {
        captures_of(secs.drop_last()) + capture_name(secs.last())
    }
}

/// `captures_of` distributes over concatenation of section lists.
pub proof fn lemma_captures_of_concat(a: Seq<SectionView>, b: Seq<SectionView>)
    ensures
        captures_of(a + b) == captures_of(a) + captures_of(b),
    decreases b.len(),
{
    if b.len() == 0 {
        assert(a + b =~= a);
        assert(captures_of(a) + captures_of(b) =~= captures_of(a));
    } else {
        assert((a + b).drop_last() =~= a + b.drop_last());
        assert((a + b).last() == b.last());
        lemma_captures_of_concat(a, b.drop_last());
        assert(captures_of(a + b) =~= captures_of(a) + captures_of(b));
    }
}

/// Failure of the pattern grammar.
#[derive(Debug, PartialEq, Eq)]
pub enum GrammarError {
    /// Two capture identifiers stand next to each other with no delimiting
    /// literal between them, so no match could tell them apart.
    AmbiguousCapture,
    /// A capture identifier repeats a field name that an earlier section of
    /// the pattern already binds: each field name may appear in the capture
    /// position of exactly one section.
    DuplicateCapture(Vec<char>),
}

/// The mathematical content of a [`GrammarError`].
pub enum GrammarErrorView {
    AmbiguousCapture,
    DuplicateCapture(Seq<char>),
}

impl View for GrammarError {
    type V = GrammarErrorView;

    open spec fn view(&self) -> GrammarErrorView {
        match self {
            GrammarError::AmbiguousCapture => GrammarErrorView::AmbiguousCapture,
            GrammarError::DuplicateCapture(n) => GrammarErrorView::DuplicateCapture(n@),
        }
    }
}

/// The views of a token stream.
pub open spec fn token_views(ts: Seq<Token>) -> Seq<TokenView> {
    ts.map_values(|t: Token| t@)
}

/// What parsing yields from position `i` of the token stream, with the
/// sections assembled so far in `acc`.
///
/// A literal token yields a [`SectionView::StrMatch`].  An identifier token
/// binds a capture, and its name must be new to the pattern; one at the end
/// of the stream yields a [`SectionView::Capture`], one followed by a literal
/// yields a [`SectionView::CaptureLookahead`] together with that literal, and
/// one followed by another identifier is ambiguous.
pub open spec fn spec_parse_from(
    toks: Seq<TokenView>,
    i: nat,
    acc: Seq<SectionView>,
) -> Result<Seq<SectionView>, GrammarErrorView>
    decreases toks.len() - i,
{
    if i >= toks.len() {
        Ok(acc)
    } else {
        match toks[i as int] {
            TokenView::Lit(t) => spec_parse_from(
                toks,
                (i + 1) as nat,
                acc.push(SectionView::StrMatch { lit: t }),
            ),
            TokenView::Ident(f) => if captures_of(acc).contains(f) {
                Err(GrammarErrorView::DuplicateCapture(f))
            } else if i + 1 == toks.len() {
                Ok(acc.push(SectionView::Capture { field: f }))
            } else {
                match toks[i as int + 1] {
                    TokenView::Lit(d) => spec_parse_from(
                        toks,
                        (i + 2) as nat,
                        acc.push(SectionView::CaptureLookahead { field: f, lookahead: d }),
                    ),
                    TokenView::Ident(_) => Err(GrammarErrorView::AmbiguousCapture),
                }
            },
        }
    }
}

/// What parsing a whole token stream yields.
pub open spec fn spec_parse(toks: Seq<TokenView>) -> Result<Seq<SectionView>, GrammarErrorView> {
    spec_parse_from(toks, 0, Seq::empty())
}

/// Whether any section of the list captures the given name.
pub(crate) fn captures_contain(sections: &Vec<Section>, name: &[char]) -> (r: bool)
    ensures
        r == captures_of(sections@.map_values(|s: Section| s@)).contains(name@),
{
    let ghost svs = sections@.map_values(|s: Section| s@);
    let ghost cs = captures_of(svs);
    let n = sections.len();
    let mut i: usize = 0;
    proof {
        assert(captures_of(svs.take(0)) =~= Seq::<Seq<char>>::empty());
    }
    while i < n
        invariant
            0 <= i <= n,
            n == sections@.len(),
            svs == sections@.map_values(|s: Section| s@),
            svs.len() == n,
            cs == captures_of(svs),
            !captures_of(svs.take(i as int)).contains(name@),
        decreases n - i,
    {
        let found: bool = match &sections[i] {
            Section::StrMatch(_) => false,
            Section::Capture(c) => text_eq(c.field.as_slice(), name),
            Section::CaptureLookahead(c) => text_eq(c.field.as_slice(), name),
        };
        proof {
            assert(svs.take(i as int + 1).drop_last() =~= svs.take(i as int));
            assert(svs.take(i as int + 1).last() == svs[i as int]);
            assert(svs[i as int] == sections@[i as int]@);
            assert(captures_of(svs.take(i as int + 1))
                =~= captures_of(svs.take(i as int)) + capture_name(svs[i as int]));
        }
        if found {
            proof {
                let prefix = captures_of(svs.take(i as int + 1));
                assert(prefix.last() == name@);
                assert(svs =~= svs.take(i as int + 1) + svs.skip(i as int + 1));
                lemma_captures_of_concat(svs.take(i as int + 1), svs.skip(i as int + 1));
                assert(cs[prefix.len() - 1] == name@);
                assert(cs.contains(name@));
            }
            return true;
        }
        proof {
            let prefix = captures_of(svs.take(i as int + 1));
            let before = captures_of(svs.take(i as int));
            if prefix.contains(name@) {
                let t = choose|t: int| 0 <= t < prefix.len() && prefix[t] == name@;
                if t < before.len() {
                    assert(before[t] == name@);
                    assert(before.contains(name@));
                }
            }
        }
        i = i + 1;
    }
    proof {
        assert(svs.take(n as int) =~= svs);
    }
    false
}

impl Fmt {
    /// Parse a token stream into a pattern, exactly as `spec_parse`
    /// describes: left to right with one token of lookahead, failing on two
    /// adjacent capture identifiers and on a repeated capture name.
    pub fn parse(tokens: &Vec<Token>) -> (r: Result<Fmt, GrammarError>)
        ensures
            match r {
                Ok(f) => spec_parse(token_views(tokens@)) == Ok::<_, GrammarErrorView>(f@),
                Err(e) => spec_parse(token_views(tokens@)) == Err::<Seq<SectionView>, _>(e@),
            },
    {
        let ghost toks = token_views(tokens@);
        let n = tokens.len();
        let mut sections: Vec<Section> = Vec::new();
        let mut i: usize = 0;
        proof {
            assert(sections@.map_values(|s: Section| s@) =~= Seq::<SectionView>::empty());
        }
        while i < n
            invariant
                0 <= i <= n,
                n == tokens@.len(),
                toks == token_views(tokens@),
                spec_parse(toks) == spec_parse_from(
                    toks,
                    i as nat,
                    sections@.map_values(|s: Section| s@),
                ),
            decreases n - i,
        {
            let ghost acc = sections@.map_values(|s: Section| s@);
            match &tokens[i] {
                Token::Lit(t) => {
                    let sec = Section::StrMatch(StrMatch { lit: slice_to_vec(t.as_slice()) });
                    proof {
                        assert(sections@.push(sec).map_values(|s: Section| s@)
                            =~= acc.push(sec@));
                    }
                    sections.push(sec);
                    i = i + 1;
                },
                Token::Ident(f) => {
                    if captures_contain(&sections, f.as_slice()) {
                        proof {
                            assert(toks[i as int] == tokens@[i as int]@);
                        }
                        return Err(GrammarError::DuplicateCapture(slice_to_vec(f.as_slice())));
                    }
                    if i + 1 == n {
                        let sec = Section::Capture(Capture {
                            field: slice_to_vec(f.as_slice()),
                        });
                        proof {
                            assert(sections@.push(sec).map_values(|s: Section| s@)
                                =~= acc.push(sec@));
                        }
                        sections.push(sec);
                        i = i + 1;
                    } else {
                        match &tokens[i + 1] {
                            Token::Lit(d) => {
                                let sec = Section::CaptureLookahead(CaptureLookahead {
                                    field: slice_to_vec(f.as_slice()),
                                    lookahead: slice_to_vec(d.as_slice()),
                                });
                                proof {
                                    assert(sections@.push(sec).map_values(|s: Section| s@)
                                        =~= acc.push(sec@));
                                }
                                sections.push(sec);
                                i = i + 2;
                            },
                            Token::Ident(_) => {
                                return Err(GrammarError::AmbiguousCapture);
                            },
                        }
                    }
                },
            }
        }
        Ok(Fmt { sections })
    }
}

/// A capture that consumes to the end of the input can only stand last: in
/// any parsed pattern, no section before the final one is a
/// [`SectionView::Capture`].
pub proof fn lemma_capture_is_last(toks: Seq<TokenView>, secs: Seq<SectionView>)
    requires
        spec_parse(toks) == Ok::<_, GrammarErrorView>(secs),
    ensures
        forall|j: int| 0 <= j < secs.len() - 1 ==> !(secs[j] is Capture),
{
    lemma_capture_is_last_from(toks, 0, Seq::empty(), secs);
}

proof fn lemma_capture_is_last_from(
    toks: Seq<TokenView>,
    i: nat,
    acc: Seq<SectionView>,
    secs: Seq<SectionView>,
)
    requires
        spec_parse_from(toks, i, acc) == Ok::<_, GrammarErrorView>(secs),
        forall|j: int| 0 <= j < acc.len() ==> !(acc[j] is Capture),
    ensures
        forall|j: int| 0 <= j < secs.len() - 1 ==> !(secs[j] is Capture),
    decreases toks.len() - i,
{
    if i >= toks.len() {
    } else {
        match toks[i as int] {
            TokenView::Lit(t) => {
                lemma_capture_is_last_from(
                    toks,
                    (i + 1) as nat,
                    acc.push(SectionView::StrMatch { lit: t }),
                    secs,
                );
            },
            TokenView::Ident(f) => {
                if captures_of(acc).contains(f) {
                } else if i + 1 == toks.len() {
                    assert(secs == acc.push(SectionView::Capture { field: f }));
                } else {
                    match toks[i as int + 1] {
                        TokenView::Lit(d) => {
                            lemma_capture_is_last_from(
                                toks,
                                (i + 2) as nat,
                                acc.push(SectionView::CaptureLookahead {
                                    field: f,
                                    lookahead: d,
                                }),
                                secs,
                            );
                        },
                        TokenView::Ident(_) => {},
                    }
                }
            },
        }
    }
}

/// No two sections of a parsed pattern bind the same field name: each
/// captured name appears in the capture position of exactly one section.
pub proof fn lemma_parse_captures_distinct(toks: Seq<TokenView>, secs: Seq<SectionView>)
    requires
        spec_parse(toks) == Ok::<_, GrammarErrorView>(secs),
    ensures
        captures_of(secs).no_duplicates(),
{
    assert(captures_of(Seq::<SectionView>::empty()) =~= Seq::<Seq<char>>::empty());
    lemma_parse_captures_distinct_from(toks, 0, Seq::empty(), secs);
}

proof fn lemma_parse_captures_distinct_from(
    toks: Seq<TokenView>,
    i: nat,
    acc: Seq<SectionView>,
    secs: Seq<SectionView>,
)
    requires
        spec_parse_from(toks, i, acc) == Ok::<_, GrammarErrorView>(secs),
        captures_of(acc).no_duplicates(),
    ensures
        captures_of(secs).no_duplicates(),
    decreases toks.len() - i,
{
    if i >= toks.len() {
    } else {
        match toks[i as int] {
            TokenView::Lit(t) => {
                let acc2 = acc.push(SectionView::StrMatch { lit: t });
                assert(acc2.drop_last() =~= acc);
                assert(captures_of(acc2) =~= captures_of(acc));
                lemma_parse_captures_distinct_from(toks, (i + 1) as nat, acc2, secs);
            },
            TokenView::Ident(f) => {
                if captures_of(acc).contains(f) {
                } else if i + 1 == toks.len() {
                    let acc2 = acc.push(SectionView::Capture { field: f });
                    assert(acc2.drop_last() =~= acc);
                    lemma_captures_push_new_distinct(acc, f);
                    assert(captures_of(acc2) == captures_of(acc) + seq![f]);
                } else {
                    match toks[i as int + 1] {
                        TokenView::Lit(d) => {
                            let acc2 = acc.push(SectionView::CaptureLookahead {
                                field: f,
                                lookahead: d,
                            });
                            assert(acc2.drop_last() =~= acc);
                            lemma_captures_push_new_distinct(acc, f);
                            assert(captures_of(acc2) == captures_of(acc) + seq![f]);
                            lemma_parse_captures_distinct_from(toks, (i + 2) as nat, acc2, secs);
                        },
                        TokenView::Ident(_) => {},
                    }
                }
            },
        }
    }
}

/// Appending one fresh name to a duplicate-free name list keeps it
/// duplicate-free.
proof fn lemma_captures_push_new_distinct(acc: Seq<SectionView>, f: Seq<char>)
    requires
        captures_of(acc).no_duplicates(),
        !captures_of(acc).contains(f),
    ensures
        (captures_of(acc) + seq![f]).no_duplicates(),
{
    let cs = captures_of(acc);
    let ext = cs + seq![f];
    assert forall|s: int, t: int|
        0 <= s < ext.len() && 0 <= t < ext.len() && s != t implies ext[s] != ext[t] by {
        if s < cs.len() && t < cs.len() {
            assert(ext[s] == cs[s] && ext[t] == cs[t]);
        } else if s < cs.len() {
            assert(ext[t] == f);
            if cs[s] == f {
                assert(cs.contains(f));
            }
        } else {
            assert(ext[s] == f);
            if cs[t] == f {
                assert(cs.contains(f));
            }
        }
    }
}

} // verus!
