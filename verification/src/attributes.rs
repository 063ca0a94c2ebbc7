//! The tagged attribute values that the grammar-text front end pushes
//! through the parse stack: tokens, relayed lexical faults, and partially
//! built grammar pieces.  Each payload is reached only through an accessor
//! whose contract demands the matching variant.

use vstd::prelude::*;

use crate::grammar::ProductionTail;
use crate::symbols::Location;

verus! {

/// A located token from the scanner; its kind is a terminal's symbol index.
pub struct Token {
    pub kind: usize,
    pub lexeme: String,
    pub location: Location,
}

/// A lexical fault relayed from the scanner, its text and location kept
/// unchanged.
pub enum LexicalError {
    UnexpectedText { text: String, location: Location },
    AmbiguousMatches { kinds: Vec<usize>, text: String, location: Location },
    AdvancedWhenEmpty { location: Location },
}

/// A fault from the parsing engine: either a relayed lexical fault or a
/// syntax error with the offending token and the kinds that were expected.
pub enum ParseError {
    LexicalError(LexicalError),
    SyntaxError(Token, Vec<usize>),
}

/// One attribute value on the parse stack.
pub enum AttributeData {
    Token(Token),
    SyntaxError(Token, Vec<usize>),
    LexicalError(LexicalError),
    SymbolList(Vec<usize>),
    Symbol(Option<usize>),
    LeftHandSide(usize),
    ProductionTail(ProductionTail),
    ProductionTailList(Vec<ProductionTail>),
    Default,
}

/// The text that an error-bearing attribute matched in the input.
pub open spec fn spec_matched_text(a: AttributeData) -> Seq<char> {
    match a {
        AttributeData::Token(t) => t.lexeme@,
        AttributeData::SyntaxError(t, _) => t.lexeme@,
        AttributeData::LexicalError(e) => match e {
            LexicalError::UnexpectedText { text, .. } => text@,
            LexicalError::AmbiguousMatches { text, .. } => text@,
            LexicalError::AdvancedWhenEmpty { .. } => Seq::empty(),
        },
        _ => Seq::empty(),
    }
}

/// The location that an error-bearing attribute carries.
pub open spec fn spec_location(a: AttributeData) -> Location {
    match a {
        AttributeData::Token(t) => t.location,
        AttributeData::SyntaxError(t, _) => t.location,
        AttributeData::LexicalError(e) => match e {
            LexicalError::UnexpectedText { location, .. } => location,
            LexicalError::AmbiguousMatches { location, .. } => location,
            LexicalError::AdvancedWhenEmpty { location } => location,
        },
        _ => (Location { line: 0, column: 0 }),
    }
}

impl AttributeData {
    pub open spec fn has_text(&self) -> bool {
        self matches AttributeData::Token(_) || self matches AttributeData::SyntaxError(_, _)
            || self matches AttributeData::LexicalError(_)
    }

    /// The matched text of a token, syntax error or lexical error.
    pub fn matched_text<'a>(&'a self) -> (r: &'a str)
        requires
            self.has_text(),
        ensures
            r@ == spec_matched_text(*self),
    {
        proof {
            reveal_strlit("");
        }
        match self {
            AttributeData::Token(token) => token.lexeme.as_str(),
            AttributeData::SyntaxError(token, _) => token.lexeme.as_str(),
            AttributeData::LexicalError(error) => match error {
                LexicalError::UnexpectedText { text, .. } => text.as_str(),
                LexicalError::AmbiguousMatches { text, .. } => text.as_str(),
                LexicalError::AdvancedWhenEmpty { .. } => "",
            },
            _ => "",
        }
    }

    /// The location of a token, syntax error or lexical error.
    pub fn location(&self) -> (r: Location)
        requires
            self.has_text(),
        ensures
            r == spec_location(*self),
    {
        match self {
            AttributeData::Token(token) => token.location,
            AttributeData::SyntaxError(token, _) => token.location,
            AttributeData::LexicalError(error) => match error {
                LexicalError::UnexpectedText { location, .. } => *location,
                LexicalError::AmbiguousMatches { location, .. } => *location,
                LexicalError::AdvancedWhenEmpty { location } => *location,
            },
            _ => (Location { line: 0, column: 0 }),
        }
    }

    /// The optional symbol carried by a `Symbol` attribute.
    pub fn symbol(&self) -> (r: Option<usize>)
        requires
            self matches AttributeData::Symbol(_),
        ensures
            self matches AttributeData::Symbol(s) && r == s,
    {
        match self {
            AttributeData::Symbol(symbol) => *symbol,
            _ => None,
        }
    }

    /// The symbol list carried by a `SymbolList` attribute.
    pub fn symbol_list<'a>(&'a self) -> (r: &'a Vec<usize>)
        requires
            self matches AttributeData::SymbolList(_),
        ensures
            self matches AttributeData::SymbolList(l) && r@ == l@,
    {
        match self {
            AttributeData::SymbolList(list) => list,
            _ => unreached(),
        }
    }

    /// The left-hand-side symbol carried by a `LeftHandSide` attribute.
    pub fn left_hand_side(&self) -> (r: usize)
        requires
            self matches AttributeData::LeftHandSide(_),
        ensures
            self matches AttributeData::LeftHandSide(s) && r == s,
    {
        match self {
            AttributeData::LeftHandSide(lhs) => *lhs,
            _ => 0,
        }
    }

    /// The tail carried by a `ProductionTail` attribute.
    pub fn production_tail<'a>(&'a self) -> (r: &'a ProductionTail)
        requires
            self matches AttributeData::ProductionTail(_),
        ensures
            self matches AttributeData::ProductionTail(t) && r == t,
    {
        match self {
            AttributeData::ProductionTail(tail) => tail,
            _ => unreached(),
        }
    }

    /// The tail list carried by a `ProductionTailList` attribute.
    pub fn production_tail_list<'a>(&'a self) -> (r: &'a Vec<ProductionTail>)
        requires
            self matches AttributeData::ProductionTailList(_),
        ensures
            self matches AttributeData::ProductionTailList(l) && r == l,
    {
        match self {
            AttributeData::ProductionTailList(list) => list,
            _ => unreached(),
        }
    }
}

impl Default for AttributeData {
    fn default() -> (r: Self)
        ensures
            r matches AttributeData::Default,
    {
        AttributeData::Default
    }
}

impl From<Token> for AttributeData {
    fn from(token: Token) -> (r: Self) {
        AttributeData::Token(token)
    }
}

impl vstd::std_specs::convert::FromSpecImpl<Token> for AttributeData {
    open spec fn obeys_from_spec() -> bool {
        true
    }

    open spec fn from_spec(token: Token) -> Self {
        AttributeData::Token(token)
    }
}

impl From<ParseError> for AttributeData {
    fn from(error: ParseError) -> (r: Self) {
        match error {
            ParseError::LexicalError(e) => AttributeData::LexicalError(e),
            ParseError::SyntaxError(token, expected) => AttributeData::SyntaxError(token,
                expected),
        }
    }
}

impl vstd::std_specs::convert::FromSpecImpl<ParseError> for AttributeData {
    open spec fn obeys_from_spec() -> bool {
        true
    }

    open spec fn from_spec(error: ParseError) -> Self {
        match error {
            ParseError::LexicalError(e) => AttributeData::LexicalError(e),
            ParseError::SyntaxError(token, expected) => AttributeData::SyntaxError(token,
                expected),
        }
    }
}

} // verus!
