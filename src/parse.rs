use vstd::prelude::*;
use crate::selector::{
    parts_of, well_formed, Part, Selector, SelectorElement,
    SelectorElements,
};
use crate::symbol::Tag;

verus! {

/// One CSS token, reduced to what the selector grammar tells apart.
#[derive(Debug)]
pub enum Lexeme {
    /// A name, such as `div`.
    Ident(String),
    /// `#` followed by a name, without the `#`.
    IdHash(String),
    WhiteSpace,
    Colon,
    Delim(char),
    /// Any other token, as CSS text.
    Other(String),
}

impl Lexeme {
    /// A second lexeme equal to this one.
    pub fn duplicate(&self) -> (r: Lexeme)
        ensures
            r == *self,
    {
        match self {
            Lexeme::Ident(v) => Lexeme::Ident(v.clone()),
            Lexeme::IdHash(v) => Lexeme::IdHash(v.clone()),
            Lexeme::WhiteSpace => Lexeme::WhiteSpace,
            Lexeme::Colon => Lexeme::Colon,
            Lexeme::Delim(c) => Lexeme::Delim(*c),
            Lexeme::Other(v) => Lexeme::Other(v.clone()),
        }
    }
}

/// Why a selector's text was refused.
#[derive(Debug)]
pub enum SelectorParseError {
    /// A token that no selector holds.
    UnexpectedToken(Lexeme),
    /// `#` with no name after it.
    EmptyId,
    /// `.` or `:` not followed at once by a name.
    MissingName,
    /// No predicate at all.
    Empty,
}

/// How the next name is read: as a tag name, after `.` as a class, after `:`
/// as a state.
pub enum Expect {
    Name,
    Class,
    State,
}

/// The tokenizer's state after some lexemes: how the next name is read,
/// whether whitespace has come since the last predicate, and the elements so
/// far, innermost first.
pub struct ScanState {
    pub expect: Expect,
    pub space: bool,
    pub parts: Seq<Part>,
}

/// The predicate that a name stands for, read as `expect` says.
pub open spec fn named_part(expect: Expect, name: Seq<char>) -> Part {
    match expect {
        Expect::Name => Part::Name(name),
        Expect::Class => Part::Class(name),
        Expect::State => Part::State(name),
    }
}

/// Adds a predicate in front, after a combinator where whitespace came before
/// it.
pub open spec fn emit(st: ScanState, p: Part) -> ScanState {
    ScanState {
        expect: Expect::Name,
        space: false,
        parts: if st.space {
            seq![p, Part::Combinator] + st.parts
        } else {
            seq![p] + st.parts
        },
    }
}

/// One step of the tokenizer.
pub open spec fn step(st: ScanState, lex: Lexeme) -> Result<ScanState, SelectorParseError> {
    match lex {
        Lexeme::Ident(v) => Ok(emit(st, named_part(st.expect, v@))),
        Lexeme::IdHash(v) => if !(st.expect is Name) {
            Err(SelectorParseError::MissingName)
        } else if v@.len() == 0 {
            Err(SelectorParseError::EmptyId)
        } else {
            Ok(emit(st, Part::Id(v@)))
        },
        Lexeme::WhiteSpace => if !(st.expect is Name) {
            Err(SelectorParseError::MissingName)
        } else {
            Ok(ScanState { space: st.parts.len() > 0, ..st })
        },
        Lexeme::Colon => if !(st.expect is Name) {
            Err(SelectorParseError::MissingName)
        } else {
            Ok(ScanState { expect: Expect::State, ..st })
        },
        Lexeme::Delim(c) => if c != '.' {
            Err(SelectorParseError::UnexpectedToken(lex))
        } else if !(st.expect is Name) {
            Err(SelectorParseError::MissingName)
        } else {
            Ok(ScanState { expect: Expect::Class, ..st })
        },
        Lexeme::Other(_) => Err(SelectorParseError::UnexpectedToken(lex)),
    }
}

/// The tokenizer's state after all of `lexemes`, or the first error.
pub open spec fn scan(lexemes: Seq<Lexeme>) -> Result<ScanState, SelectorParseError>
    decreases lexemes.len(),
{
    if lexemes.len() == 0 {
        Ok(ScanState { expect: Expect::Name, space: false, parts: Seq::empty() })
    } else {
        match scan(lexemes.drop_last()) {
            Ok(st) => step(st, lexemes.last()),
            Err(e) => Err(e),
        }
    }
}

/// The elements of the selector that the lexemes spell, innermost compound
/// first, or why there is none.
pub open spec fn parsed_parts(lexemes: Seq<Lexeme>) -> Result<Seq<Part>, SelectorParseError> {
    match scan(lexemes) {
        Err(e) => Err(e),
        Ok(st) => if !(st.expect is Name) {
            Err(SelectorParseError::MissingName)
        } else if st.parts.len() == 0 {
            Err(SelectorParseError::Empty)
        } else {
            Ok(st.parts)
        },
    }
}

/// What a parse returned, with the selector seen through its elements.
pub open spec fn parse_outcome(r: Result<Selector, SelectorParseError>) -> Result<
    Seq<Part>,
    SelectorParseError,
> {
    match r {
        Ok(s) => Ok(s.parts()),
        Err(e) => Err(e),
    }
}

/// The lexemes that cssparser reads from a text.
pub uninterp spec fn css_lexemes(source: Seq<char>) -> Seq<Lexeme>;

/// Relies on cssparser's `Parser::next_including_whitespace`: the tokens of the
/// text, comments left out, up to the end of input, each reduced to a lexeme.
#[verifier::external_body]
fn css_tokens(source: &str) -> (r: Vec<Lexeme>)
    ensures
        r@ == css_lexemes(source@),
{
    let mut input = cssparser::ParserInput::new(source);
    let mut parser = cssparser::Parser::new(&mut input);
    let mut out = Vec::new();
    while let Ok(token) = parser.next_including_whitespace() {
        out.push(match token {
            cssparser::Token::Ident(v) => Lexeme::Ident(v.to_string()),
            cssparser::Token::IDHash(v) => Lexeme::IdHash(v.to_string()),
            cssparser::Token::WhiteSpace(_) => Lexeme::WhiteSpace,
            cssparser::Token::Colon => Lexeme::Colon,
            cssparser::Token::Delim(c) => Lexeme::Delim(*c),
            other => Lexeme::Other(cssparser::ToCss::to_css_string(other)),
        });
    }
    out
}

/// What holds of every state the tokenizer reaches: elements innermost first
/// with a predicate at each end and no two combinators side by side, pending
/// whitespace only after some predicate, and no more elements than lexemes
/// read.
pub open spec fn scan_invariant(st: ScanState, read: int) -> bool {
    &&& st.parts.len() == 0 || well_formed(st.parts)
    &&& st.space ==> st.parts.len() > 0
    &&& st.parts.len() + (if st.space { 1int } else { 0int }) <= read
}

/// Once the tokenizer fails, it keeps the first error.
pub proof fn lemma_scan_error_stays(lexemes: Seq<Lexeme>, i: int)
    requires
        0 <= i <= lexemes.len(),
        scan(lexemes.take(i)) is Err,
    ensures
        scan(lexemes) == scan(lexemes.take(i)),
    decreases lexemes.len() - i,
{
    if i < lexemes.len() {
        assert(lexemes.take(i + 1).drop_last() =~= lexemes.take(i));
        lemma_scan_error_stays(lexemes, i + 1);
    } else {
        assert(lexemes.take(i) =~= lexemes);
    }
}

/// Puts a predicate in front of the elements, after a combinator where
/// whitespace came before it.
fn push_part(elements: &mut SelectorElements, space: bool, e: SelectorElement)
    requires
        parts_of(*old(elements)).len() + (if space { 2int } else { 1int }) <= usize::MAX,
    ensures
        parts_of(*final(elements)) == (if space {
            seq![e@, Part::Combinator] + parts_of(*old(elements))
        } else {
            seq![e@] + parts_of(*old(elements))
        }),
{
    if space {
        elements.push_front(SelectorElement::AnyChild);
    }
    elements.push_front(e);
    proof {
        let old_parts = parts_of(*old(elements));
        if space {
            assert(parts_of(*final(elements)) =~= seq![e@, Part::Combinator] + old_parts);
        } else {
            assert(parts_of(*final(elements)) =~= seq![e@] + old_parts);
        }
    }
}

/// Reads a selector from its lexemes. Names are tag names, `#name` an id,
/// `.name` a class and `:name` a state; predicates written together form one
/// compound, and whitespace between compounds is the descendant combinator.
/// Whitespace before the first or after the last compound is ignored.
pub fn parse_lexemes(lexemes: &Vec<Lexeme>) -> (r: Result<Selector, SelectorParseError>)
    ensures
        parse_outcome(r) == parsed_parts(lexemes@),
        r matches Ok(s) ==> s.weight == 0 && s.index@ == 0 && well_formed(s.parts()),
{
    let mut elements = SelectorElements::new();
    let mut expect = Expect::Name;
    let mut space = false;
    let mut i: usize = 0;
    proof {
        assert(lexemes@.take(0) =~= Seq::<Lexeme>::empty());
        assert(parts_of(elements) =~= Seq::<Part>::empty());
    }
    while i < lexemes.len()
        invariant
            i <= lexemes@.len(),
            scan(lexemes@.take(i as int)) == Ok::<ScanState, SelectorParseError>(
                ScanState { expect, space, parts: parts_of(elements) },
            ),
            scan_invariant(ScanState { expect, space, parts: parts_of(elements) }, i as int),
        decreases lexemes.len() - i,
    {
        let ghost st = ScanState { expect, space, parts: parts_of(elements) };
        proof {
            assert(lexemes@.take(i + 1).drop_last() =~= lexemes@.take(i as int));
            assert(lexemes@.take(i + 1).last() == lexemes@[i as int]);
        }
        let lex = &lexemes[i];
        let is_name = match expect {
            Expect::Name => true,
            _ => false,
        };
        match lex {
            Lexeme::Ident(v) => {
                let tag = Tag::new(v.as_str());
                let e = match expect {
                    Expect::Name => SelectorElement::Tag(tag),
                    Expect::Class => SelectorElement::Class(tag),
                    Expect::State => SelectorElement::State(tag),
                };
                push_part(&mut elements, space, e);
                expect = Expect::Name;
                space = false;
            },
            Lexeme::IdHash(v) => {
                if !is_name {
                    proof {
                        lemma_scan_error_stays(lexemes@, i + 1);
                    }
                    return Err(SelectorParseError::MissingName);
                }
                if v.as_str().is_empty() {
                    proof {
                        lemma_scan_error_stays(lexemes@, i + 1);
                    }
                    return Err(SelectorParseError::EmptyId);
                }
                push_part(&mut elements, space, SelectorElement::Id(Tag::new(v.as_str())));
                space = false;
            },
            Lexeme::WhiteSpace => {
                if !is_name {
                    proof {
                        lemma_scan_error_stays(lexemes@, i + 1);
                    }
                    return Err(SelectorParseError::MissingName);
                }
                space = elements.len() > 0;
            },
            Lexeme::Colon => {
                if !is_name {
                    proof {
                        lemma_scan_error_stays(lexemes@, i + 1);
                    }
                    return Err(SelectorParseError::MissingName);
                }
                expect = Expect::State;
            },
            Lexeme::Delim(c) => {
                if *c != '.' {
                    proof {
                        lemma_scan_error_stays(lexemes@, i + 1);
                    }
                    return Err(SelectorParseError::UnexpectedToken(lex.duplicate()));
                }
                if !is_name {
                    proof {
                        lemma_scan_error_stays(lexemes@, i + 1);
                    }
                    return Err(SelectorParseError::MissingName);
                }
                expect = Expect::Class;
            },
            Lexeme::Other(_) => {
                proof {
                    lemma_scan_error_stays(lexemes@, i + 1);
                }
                return Err(SelectorParseError::UnexpectedToken(lex.duplicate()));
            },
        }
        i += 1;
    }
    proof {
        assert(lexemes@.take(i as int) =~= lexemes@);
    }
    match expect {
        Expect::Name => {},
        _ => {
            return Err(SelectorParseError::MissingName);
        },
    }
    if elements.len() == 0 {
        return Err(SelectorParseError::Empty);
    }
    Ok(Selector::new(elements))
}

impl Selector {
    /// Reads a selector from text, as `parse_lexemes` does from the text's CSS
    /// tokens.
    pub fn parse(source: &str) -> (r: Result<Selector, SelectorParseError>)
        ensures
            parse_outcome(r) == parsed_parts(css_lexemes(source@)),
            r matches Ok(s) ==> s.weight == 0 && s.index@ == 0 && well_formed(s.parts()),
    {
        let lexemes = css_tokens(source);
        parse_lexemes(&lexemes)
    }
}

} // verus!
