use vstd::prelude::*;

verus! {

/// A parser segment of a pattern: it consumes the longest non-empty prefix
/// whose characters it accepts, and binds it to its name.
pub enum Parser {
    /// Characters from a fixed set.
    CharSet { name: String, chars: Vec<char> },
    /// Decimal digits.
    Integer { name: String },
}

pub open spec fn is_digit(c: char) -> bool {
    '0' <= c && c <= '9'
}

impl Parser {
    pub open spec fn spec_name(&self) -> Seq<char> {
        match self {
            Parser::CharSet { name, .. } => name@,
            Parser::Integer { name } => name@,
        }
    }

    pub open spec fn accepts(&self, c: char) -> bool {
        match self {
            Parser::CharSet { chars, .. } => chars@.contains(c),
            Parser::Integer { .. } => is_digit(c),
        }
    }

    /// Two parsers are the same segment when their kind, name and
    /// parameters agree.
    pub open spec fn same_as(&self, other: &Parser) -> bool {
        match (self, other) {
            (Parser::CharSet { name: a, chars: x }, Parser::CharSet { name: b, chars: y }) => a@ == b@
                && x@ == y@,
            (Parser::Integer { name: a }, Parser::Integer { name: b }) => a@ == b@,
            _ => false,
        }
    }

    /// A parser of the characters of `chars`, bound to `name`.
    pub fn set_from_str(name: &str, chars: &str) -> (r: Parser)
        ensures
            r matches Parser::CharSet { .. },
            r.spec_name() == name@,
            forall|c: char| r.accepts(c) <==> chars@.contains(c),
    {
        Parser::CharSet { name: name.to_string(), chars: crate::text::chars_of(chars) }
    }

    /// A parser of decimal digits, bound to `name`.
    pub fn integer(name: &str) -> (r: Parser)
        ensures
            r matches Parser::Integer { .. },
            r.spec_name() == name@,
            forall|c: char| r.accepts(c) <==> is_digit(c),
    {
        Parser::Integer { name: name.to_string() }
    }

    pub fn name(&self) -> (r: &String)
        ensures
            r@ == self.spec_name(),
    {
        match self {
            Parser::CharSet { name, .. } => name,
            Parser::Integer { name } => name,
        }
    }

    fn accepts_char(&self, c: char) -> (r: bool)
        ensures
            r == self.accepts(c),
    {
        match self {
            Parser::CharSet { chars, .. } => {
                let mut i: usize = 0;
                while i < chars.len()
                    invariant
                        i <= chars@.len(),
                        self.accepts(c) == chars@.contains(c),
                        forall|j: int| 0 <= j < i ==> chars@[j] != c,
                    decreases chars@.len() - i,
                {
                    if chars[i] == c {
                        assert(chars@[i as int] == c);
                        return true;
                    }
                    i = i + 1;
                }
                false
            },
            Parser::Integer { .. } => '0' <= c && c <= '9',
        }
    }

    /// The number of characters this parser takes from `input` at `pos`:
    /// `None` where it takes none.
    pub fn parse(&self, input: &Vec<char>, pos: usize) -> (r: Option<usize>)
        requires
            pos <= input@.len(),
        ensures
            r == match_len(*self, input@, pos as int),
            r is Some ==> pos + r->Some_0 <= input@.len(),
    {
        let mut i: usize = pos;
        while i < input.len() && self.accepts_char(input[i])
            invariant
                pos <= i <= input@.len(),
                scan(*self, input@, pos as int) == scan(*self, input@, i as int),
            decreases input@.len() - i,
        {
            i = i + 1;
        }
        if i == pos {
            None
        } else {
            Some(i - pos)
        }
    }

    /// A parser equal to this one in kind, name and parameters.
    pub fn copy(&self) -> (r: Parser)
        ensures
            r.same_as(self),
            self.same_as(&r),
    {
        match self {
            Parser::CharSet { name, chars } => {
                let c = crate::text::sub_chars(chars, 0, chars.len());
                assert(c@ =~= chars@);
                Parser::CharSet { name: name.clone(), chars: c }
            },
            Parser::Integer { name } => Parser::Integer { name: name.clone() },
        }
    }

    pub fn same(&self, other: &Parser) -> (r: bool)
        ensures
            r == self.same_as(other),
    {
        match (self, other) {
            (Parser::CharSet { name: a, chars: x }, Parser::CharSet { name: b, chars: y }) => {
                *a == *b && crate::text::chars_eq(x, y)
            },
            (Parser::Integer { name: a }, Parser::Integer { name: b }) => *a == *b,
            _ => false,
        }
    }
}

/// Where the run of characters that `p` accepts from position `i` ends.
pub open spec fn scan(p: Parser, input: Seq<char>, i: int) -> int
    decreases input.len() - i,
{
    if 0 <= i < input.len() && p.accepts(input[i]) {
        scan(p, input, i + 1)
    } else {
        i
    }
}

/// The length of the non-empty run that `p` takes from `input` at `pos`.
pub open spec fn match_len(p: Parser, input: Seq<char>, pos: int) -> Option<usize> {
    let end = scan(p, input, pos);
    if end > pos {
        Some((end - pos) as usize)
    } else {
        None
    }
}

} // verus!
