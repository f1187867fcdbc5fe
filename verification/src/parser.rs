//! A command-line argument parser that knows two shapes of argument: a flag,
//! and a flag followed by its value.

use crate::text::texts_of;
use vstd::hash_map::StringHashMap;
use vstd::hash_set::StringHashSet;
use vstd::prelude::*;

verus! {

/// A registered argument: the name it is recorded under, the tokens that
/// select it, its help text, and whether the token after it is its value.
pub struct Argument {
    pub name: String,
    pub short: Option<String>,
    pub long: String,
    pub help: String,
    pub takes_value: bool,
}

/// An argument as the contracts see it.
pub struct ArgumentSpec {
    pub name: Seq<char>,
    pub short: Option<Seq<char>>,
    pub long: Seq<char>,
    pub help: Seq<char>,
    pub takes_value: bool,
}

impl View for Argument {
    type V = ArgumentSpec;

    open spec fn view(&self) -> ArgumentSpec {
        ArgumentSpec {
            name: self.name@,
            short: match self.short {
                Some(short) => Some(short@),
                None => None,
            },
            long: self.long@,
            help: self.help@,
            takes_value: self.takes_value,
        }
    }
}

/// What a scan has found: the value given for each value-taking argument,
/// and the flags that were present, all by argument name.
pub struct Parsed {
    pub values: Map<Seq<char>, Seq<char>>,
    pub flags: Set<Seq<char>>,
}

impl Parsed {
    /// Nothing found yet.
    pub open spec fn empty() -> Parsed {
        Parsed { values: Map::empty(), flags: Set::empty() }
    }

    /// The same with `value` recorded for `name`, in place of an earlier
    /// value if there was one.
    pub open spec fn with_value(self, name: Seq<char>, value: Seq<char>) -> Parsed {
        Parsed { values: self.values.insert(name, value), flags: self.flags }
    }

    /// The same with the flag `name` present.
    pub open spec fn with_flag(self, name: Seq<char>) -> Parsed {
        Parsed { values: self.values, flags: self.flags.insert(name) }
    }
}

/// Why a scan stopped: a value-taking argument, given by its long form, was
/// the last token; or a token, given as it stood, selected no registered
/// argument.
pub enum ParseFailure {
    MissingValue(Seq<char>),
    UnknownArgument(Seq<char>),
}

/// Why parsing failed.
#[derive(Debug)]
pub enum ParseError {
    /// A value-taking argument was the last token. The text is the long
    /// form of that argument, also where the token was its short form.
    MissingValue(String),
    /// The token, given here as it stood, selected no registered argument.
    UnknownArgument(String),
}

impl View for ParseError {
    type V = ParseFailure;

    open spec fn view(&self) -> ParseFailure {
        match self {
            ParseError::MissingValue(long) => ParseFailure::MissingValue(long@),
            ParseError::UnknownArgument(token) => ParseFailure::UnknownArgument(token@),
        }
    }
}

/// Whether `token` is the long form or the short form of `spec`.
pub open spec fn selects(token: Seq<char>, spec: ArgumentSpec) -> bool {
    spec.long == token || spec.short == Some(token)
}

/// Whether `specs[k]` is the first of `specs` that `token` selects.
pub open spec fn is_first_selected(specs: Seq<ArgumentSpec>, token: Seq<char>, k: int) -> bool {
    &&& 0 <= k < specs.len()
    &&& selects(token, specs[k])
    &&& forall|j: int| 0 <= j < k ==> !selects(token, #[trigger] specs[j])
}

/// The first of `specs` that `token` selects, if there is one.
pub open spec fn lookup(specs: Seq<ArgumentSpec>, token: Seq<char>) -> Option<ArgumentSpec> {
    if exists|k: int| is_first_selected(specs, token, k) {
        Some(specs[choose|k: int| is_first_selected(specs, token, k)])
    } else {
        None
    }
}

/// The scan of `tokens` from position `from` on, with `found` already
/// recorded. Flags and values are recorded under the argument's name. The
/// scan stops at the first token that selects nothing, with that token, and
/// at a value-taking argument that no token follows, with the long form of
/// that argument.
pub open spec fn scan(
    specs: Seq<ArgumentSpec>,
    tokens: Seq<Seq<char>>,
    from: int,
    found: Parsed,
) -> Result<Parsed, ParseFailure>
    decreases tokens.len() - from,
{
    if from >= tokens.len() {
        Ok(found)
    } else {
        match lookup(specs, tokens[from]) {
            None => Err(ParseFailure::UnknownArgument(tokens[from])),
            Some(spec) => if !spec.takes_value {
                scan(specs, tokens, from + 1, found.with_flag(spec.name))
            } else if from + 1 < tokens.len() {
                scan(specs, tokens, from + 2, found.with_value(spec.name, tokens[from + 1]))
            } else {
                Err(ParseFailure::MissingValue(spec.long))
            },
        }
    }
}

/// What parsing `tokens` against `specs` gives. The first token is the
/// program's name and is passed over.
pub open spec fn parsed(specs: Seq<ArgumentSpec>, tokens: Seq<Seq<char>>) -> Result<
    Parsed,
    ParseFailure,
> {
    scan(specs, tokens, 1, Parsed::empty())
}

/// The registered arguments, in the order of registration.
pub struct ArgumentParser {
    args: Vec<Argument>,
}

impl View for ArgumentParser {
    type V = Seq<ArgumentSpec>;

    closed spec fn view(&self) -> Seq<ArgumentSpec> {
        Seq::new(self.args@.len(), |i: int| self.args@[i]@)
    }
}

impl ArgumentParser {
    /// A parser with no argument registered.
    pub fn new() -> (parser: Self)
        ensures
            parser@ == Seq::<ArgumentSpec>::empty(),
    {
        ArgumentParser { args: Vec::new() }
    }

    /// Registers `arg` after those registered before.
    pub fn add_argument(&mut self, arg: Argument)
        ensures
            final(self)@ == old(self)@.push(arg@),
    {
        self.args.push(arg);
    }

    /// The position of the first registered argument that `token` selects.
    fn find(&self, token: &String) -> (found: Option<usize>)
        ensures
            match found {
                Some(k) => is_first_selected(self@, token@, k as int),
                None => forall|k: int| !is_first_selected(self@, token@, k),
            },
    {
        for k in 0..self.args.len()
            invariant
                forall|j: int| 0 <= j < k ==> !selects(token@, #[trigger] self@[j]),
        {
            let arg = &self.args[k];
            let by_short = match &arg.short {
                Some(short) => *short == *token,
                None => false,
            };
            if arg.long == *token || by_short {
                return Some(k);
            }
        }
        None
    }

    /// Parses `args`, the program's name first, in one scan from left to
    /// right. A flag is recorded as present; a value-taking argument takes
    /// the next token as its value. The first token that selects no
    /// registered argument stops the scan with an error that holds the
    /// token; a value-taking argument at the very end stops it with an
    /// error that holds the long form of the argument. Nothing found before
    /// an error is returned.
    pub fn parse(&self, args: &Vec<String>) -> (result: Result<ParseResult, ParseError>)
        ensures
            match result {
                Ok(parse_result) => parsed(self@, texts_of(args@)) == Ok::<Parsed, ParseFailure>(
                    parse_result@,
                ),
                Err(error) => parsed(self@, texts_of(args@)) == Err::<Parsed, ParseFailure>(error@),
            },
    {
        let ghost tokens = texts_of(args@);
        let mut parse_result = ParseResult::new();
        let mut i: usize = 1;
        while i < args.len()
            invariant
                1 <= i,
                tokens == texts_of(args@),
                parsed(self@, tokens) == scan(self@, tokens, i as int, parse_result@),
            decreases args.len() - i,
        {
            match self.find(&args[i]) {
                Some(k) => {
                    let arg = &self.args[k];
                    assert(lookup(self@, tokens[i as int]) == Some(self@[k as int]));
                    if arg.takes_value {
                        if i + 1 < args.len() {
                            parse_result.add_value(arg.name.clone(), args[i + 1].clone());
                            i += 1;
                        } else {
                            return Err(ParseError::MissingValue(arg.long.clone()));
                        }
                    } else {
                        parse_result.add_flag(arg.name.clone());
                    }
                },
                None => {
                    return Err(ParseError::UnknownArgument(args[i].clone()));
                },
            }
            i += 1;
        }
        Ok(parse_result)
    }
}

/// What a parse found.
pub struct ParseResult {
    values: StringHashMap<String>,
    flags: StringHashSet,
}

impl View for ParseResult {
    type V = Parsed;

    closed spec fn view(&self) -> Parsed {
        Parsed { values: self.values@.map_values(|value: String| value@), flags: self.flags@ }
    }
}

impl ParseResult {
    /// A result with no value and no flag.
    fn new() -> (result: Self)
        ensures
            result@ == Parsed::empty(),
    {
        let result = ParseResult { values: StringHashMap::new(), flags: StringHashSet::new() };
        assert(result@.values =~= Map::<Seq<char>, Seq<char>>::empty());
        result
    }

    /// Records `value` for `name`, in place of an earlier value.
    fn add_value(&mut self, name: String, value: String)
        ensures
            final(self)@ == old(self)@.with_value(name@, value@),
    {
        self.values.insert(name, value);
        assert(self@.values =~= old(self)@.values.insert(name@, value@));
    }

    /// Records the flag `name` as present.
    fn add_flag(&mut self, name: String)
        ensures
            final(self)@ == old(self)@.with_flag(name@),
    {
        self.flags.insert(name);
    }

    /// The value given for the argument `name`, if one was given.
    pub fn get_value(&self, name: &str) -> (value: Option<&str>)
        ensures
            match value {
                Some(text) => self@.values.contains_key(name@) && text@ == self@.values[name@],
                None => !self@.values.contains_key(name@),
            },
    {
        match self.values.get(name) {
            Some(text) => Some(text.as_str()),
            None => None,
        }
    }

    /// Whether the flag `name` was present.
    pub fn has_flag(&self, name: &str) -> (present: bool)
        ensures
            present == self@.flags.contains(name@),
    {
        self.flags.contains(name)
    }
}

/// With at most the program's name given, parsing finds nothing.
pub proof fn bare_name_parses_to_nothing(specs: Seq<ArgumentSpec>, tokens: Seq<Seq<char>>)
    requires
        tokens.len() <= 1,
    ensures
        parsed(specs, tokens) == Ok::<Parsed, ParseFailure>(Parsed::empty()),
{
}

/// A scan that succeeds goes on, when more tokens follow, from what it
/// found; a scan that meets an unknown token fails the same way whatever
/// follows.
pub proof fn scan_goes_on(
    specs: Seq<ArgumentSpec>,
    tokens: Seq<Seq<char>>,
    more: Seq<Seq<char>>,
    from: int,
    found: Parsed,
)
    requires
        0 <= from <= tokens.len(),
    ensures
        match scan(specs, tokens, from, found) {
            Ok(result) => scan(specs, tokens + more, from, found) == scan(
                specs,
                tokens + more,
                tokens.len() as int,
                result,
            ),
            Err(ParseFailure::UnknownArgument(token)) => scan(specs, tokens + more, from, found)
                == Err::<Parsed, ParseFailure>(ParseFailure::UnknownArgument(token)),
            Err(ParseFailure::MissingValue(_)) => true,
        },
    decreases tokens.len() - from,
{
    if from < tokens.len() {
        assert((tokens + more)[from] == tokens[from]);
        match lookup(specs, tokens[from]) {
            None => {},
            Some(spec) => {
                if !spec.takes_value {
                    scan_goes_on(specs, tokens, more, from + 1, found.with_flag(spec.name));
                } else if from + 1 < tokens.len() {
                    assert((tokens + more)[from + 1] == tokens[from + 1]);
                    scan_goes_on(
                        specs,
                        tokens,
                        more,
                        from + 2,
                        found.with_value(spec.name, tokens[from + 1]),
                    );
                }
            },
        }
    }
}

/// After a successful parse, a further token that selects a flag adds that
/// flag and changes nothing else; if the flag was present already, the
/// result stays as it was.
pub proof fn appended_flag_is_recorded(
    specs: Seq<ArgumentSpec>,
    tokens: Seq<Seq<char>>,
    token: Seq<char>,
)
    requires
        tokens.len() >= 1,
        parsed(specs, tokens) is Ok,
        lookup(specs, token) is Some,
        !lookup(specs, token)->0.takes_value,
    ensures
        parsed(specs, tokens.push(token)) == Ok::<Parsed, ParseFailure>(
            parsed(specs, tokens)->Ok_0.with_flag(lookup(specs, token)->0.name),
        ),
        parsed(specs, tokens)->Ok_0.flags.contains(lookup(specs, token)->0.name) ==> parsed(
            specs,
            tokens.push(token),
        ) == parsed(specs, tokens),
{
    let found = parsed(specs, tokens)->Ok_0;
    let name = lookup(specs, token)->0.name;
    let longer = tokens + seq![token];
    assert(longer == tokens.push(token));
    scan_goes_on(specs, tokens, seq![token], 1, Parsed::empty());
    assert(longer[tokens.len() as int] == token);
    assert(scan(specs, longer, (tokens.len() + 1) as int, found.with_flag(name)) == Ok::<
        Parsed,
        ParseFailure,
    >(found.with_flag(name)));
    if found.flags.contains(name) {
        assert(found.flags.insert(name) == found.flags);
    }
}

/// After a successful parse, a further token that selects a value-taking
/// argument, followed by one more token, records that token as the value,
/// in place of any earlier value, and changes nothing else; without a token
/// after it, the value is missing, and the error holds the long form of the
/// argument.
pub proof fn appended_value_is_recorded(
    specs: Seq<ArgumentSpec>,
    tokens: Seq<Seq<char>>,
    token: Seq<char>,
    value: Seq<char>,
)
    requires
        tokens.len() >= 1,
        parsed(specs, tokens) is Ok,
        lookup(specs, token) is Some,
        lookup(specs, token)->0.takes_value,
    ensures
        parsed(specs, tokens.push(token).push(value)) == Ok::<Parsed, ParseFailure>(
            parsed(specs, tokens)->Ok_0.with_value(lookup(specs, token)->0.name, value),
        ),
        parsed(specs, tokens.push(token).push(value))->Ok_0.values[lookup(specs, token)->0.name]
            == value,
        parsed(specs, tokens.push(token)) == Err::<Parsed, ParseFailure>(
            ParseFailure::MissingValue(lookup(specs, token)->0.long),
        ),
{
    let found = parsed(specs, tokens)->Ok_0;
    let name = lookup(specs, token)->0.name;
    let longer = tokens + seq![token, value];
    assert(longer == tokens.push(token).push(value));
    scan_goes_on(specs, tokens, seq![token, value], 1, Parsed::empty());
    assert(longer[tokens.len() as int] == token);
    assert(longer[(tokens.len() + 1) as int] == value);
    assert(scan(specs, longer, (tokens.len() + 2) as int, found.with_value(name, value)) == Ok::<
        Parsed,
        ParseFailure,
    >(found.with_value(name, value)));
    let short = tokens + seq![token];
    assert(short == tokens.push(token));
    scan_goes_on(specs, tokens, seq![token], 1, Parsed::empty());
    assert(short[tokens.len() as int] == token);
}

/// After a successful parse, a further token that selects nothing fails
/// the parse and is named by the error.
pub proof fn appended_unknown_token_fails(
    specs: Seq<ArgumentSpec>,
    tokens: Seq<Seq<char>>,
    token: Seq<char>,
)
    requires
        tokens.len() >= 1,
        parsed(specs, tokens) is Ok,
        lookup(specs, token) is None,
    ensures
        parsed(specs, tokens.push(token)) == Err::<Parsed, ParseFailure>(
            ParseFailure::UnknownArgument(token),
        ),
{
    let longer = tokens + seq![token];
    assert(longer == tokens.push(token));
    scan_goes_on(specs, tokens, seq![token], 1, Parsed::empty());
    assert(longer[tokens.len() as int] == token);
}

/// Once a token selects nothing, the parse fails on that token whatever
/// tokens follow.
pub proof fn unknown_token_fails_whatever_follows(
    specs: Seq<ArgumentSpec>,
    tokens: Seq<Seq<char>>,
    more: Seq<Seq<char>>,
)
    requires
        tokens.len() >= 1,
        parsed(specs, tokens) matches Err(ParseFailure::UnknownArgument(_)),
    ensures
        parsed(specs, tokens + more) == parsed(specs, tokens),
{
    scan_goes_on(specs, tokens, more, 1, Parsed::empty());
}

/// A token selects an argument exactly if it is the long form or the short
/// form of a registered argument, and then the first such in the order of
/// registration.
pub proof fn lookup_finds_the_first(specs: Seq<ArgumentSpec>, token: Seq<char>)
    ensures
        lookup(specs, token) is None <==> forall|k: int|
            0 <= k < specs.len() ==> !selects(token, #[trigger] specs[k]),
        forall|k: int| is_first_selected(specs, token, k) ==> lookup(specs, token) == Some(specs[k]),
{
    if exists|k: int| 0 <= k < specs.len() && selects(token, #[trigger] specs[k]) {
        let k = choose|k: int| 0 <= k < specs.len() && selects(token, #[trigger] specs[k]);
        first_selected_exists(specs, token, k);
    }
}

proof fn first_selected_exists(specs: Seq<ArgumentSpec>, token: Seq<char>, k: int)
    requires
        0 <= k < specs.len(),
        selects(token, specs[k]),
    ensures
        exists|first: int| is_first_selected(specs, token, first),
    decreases k,
{
    if exists|j: int| 0 <= j < k && selects(token, #[trigger] specs[j]) {
        let j = choose|j: int| 0 <= j < k && selects(token, #[trigger] specs[j]);
        first_selected_exists(specs, token, j);
    } else {
        assert(is_first_selected(specs, token, k));
    }
}

} // verus!
