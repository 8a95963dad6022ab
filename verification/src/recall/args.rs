//! Command-line tokens, as the `lexopt` crate cuts them.
//!
//! Each function starts a parser on the arguments that are left, so what it
//! returns is a function of those arguments.

use vstd::prelude::*;
use crate::text;

verus! {

/// What the first of some arguments is. An argument that begins with two
/// dashes is a long option, with the value that follows its equals sign if it
/// has one; one that begins with a single dash and is longer is a short
/// option; a pair of dashes alone makes what follows it a value.
pub enum Shape {
    End,
    Long(Seq<char>, Option<Seq<char>>),
    Short(char),
    Value(Seq<char>),
}

/// The arguments as character sequences.
pub open spec fn texts(args: Seq<String>) -> Seq<Seq<char>> {
    Seq::new(args.len(), |i: int| args[i]@)
}

/// The shape of the first argument.
pub open spec fn shape(args: Seq<Seq<char>>) -> Shape {
    if args.len() == 0 {
        Shape::End
    } else {
        let arg = args[0];
        if arg.len() == 2 && arg[0] == '-' && arg[1] == '-' {
            if args.len() == 1 {
                Shape::End
            } else {
                Shape::Value(args[1])
            }
        } else if arg.len() > 2 && arg[0] == '-' && arg[1] == '-' {
            let equals = text::find(arg, '=', 2);
            Shape::Long(
                arg.subrange(2, equals),
                if equals < arg.len() {
                    Some(arg.skip(equals + 1))
                } else {
                    None
                },
            )
        } else if arg.len() > 1 && arg[0] == '-' {
            Shape::Short(arg[1])
        } else {
            Shape::Value(arg)
        }
    }
}

/// The value of the option that comes first: the one attached to it, else the
/// next argument, whatever it looks like.
pub open spec fn option_value(args: Seq<Seq<char>>) -> Option<Seq<char>> {
    match shape(args) {
        Shape::Long(name, Some(value)) => Some(value),
        _ => if args.len() > 1 {
            Some(args[1])
        } else {
            None
        },
    }
}

/// What a platform string that holds `text` looks like in debug output:
/// quoted and escaped.
pub uninterp spec fn os_quoted(text: Seq<char>) -> Seq<char>;

/// What a string looks like in debug output: quoted and escaped.
pub uninterp spec fn quoted(text: Seq<char>) -> Seq<char>;

/// What an argument that nothing accepts is answered.
pub open spec fn rejection(shape: Shape) -> Seq<char> {
    match shape {
        Shape::End => Seq::empty(),
        Shape::Long(name, _) => "invalid option '--"@ + name + "'"@,
        Shape::Short(c) => "invalid option '-"@ + seq![c] + "'"@,
        Shape::Value(value) => "unexpected argument "@ + os_quoted(value),
    }
}

/// A token: the shape of an argument, without values.
pub enum Token {
    End,
    Long(String),
    Short(char),
    Value,
    Failed(String),
}

impl Token {
    /// The token is that of the shape.
    pub open spec fn shows(self, shape: Shape) -> bool {
        match shape {
            Shape::End => self is End,
            Shape::Long(name, _) => self matches Token::Long(n) && n@ == name,
            Shape::Short(c) => self == Token::Short(c),
            Shape::Value(_) => self is Value,
        }
    }
}

/// `lexopt::Parser::next` on a parser that `lexopt::Parser::from_args` has
/// just made: the token of the first argument. It does not fail there, since
/// no value of an earlier option can be pending.
#[verifier::external_body]
pub(crate) fn next_token(args: &[String]) -> (r: Token)
    ensures
        r.shows(shape(texts(args@))),
{
    let mut parser = lexopt::Parser::from_args(args);
    match parser.next() {
        Ok(None) => Token::End,
        Ok(Some(lexopt::Arg::Long(name))) => Token::Long(name.to_owned()),
        Ok(Some(lexopt::Arg::Short(c))) => Token::Short(c),
        Ok(Some(lexopt::Arg::Value(_))) => Token::Value,
        Err(e) => Token::Failed(e.to_string()),
    }
}

/// `lexopt::Parser::value` after a long option: the attached value or the next
/// argument, and where there is none the crate's message, which names the
/// option.
#[verifier::external_body]
pub(crate) fn value_of_option(args: &[String]) -> (r: Result<String, String>)
    requires
        shape(texts(args@)) is Long,
    ensures
        match option_value(texts(args@)) {
            Some(value) => r matches Ok(v) && v@ == value,
            None => r matches Err(m) && m@ == "missing argument for option '--"@ + shape(
                texts(args@),
            )->Long_0 + "'"@,
        },
{
    let mut parser = lexopt::Parser::from_args(args);
    let _ = parser.next();
    match parser.value() {
        Ok(value) => Ok(value.to_string_lossy().into_owned()),
        Err(e) => Err(e.to_string()),
    }
}

/// `lexopt::Parser::next` after a long option that took no value: a value
/// attached to the option is an error there, whose message names both.
#[verifier::external_body]
pub(crate) fn surplus_value(args: &[String]) -> (r: Option<String>)
    requires
        shape(texts(args@)) is Long,
    ensures
        match shape(texts(args@)) {
            Shape::Long(name, Some(value)) => r matches Some(m) && m@
                == "unexpected argument for option '--"@ + name + "': "@ + os_quoted(value),
            _ => r is None,
        },
{
    let mut parser = lexopt::Parser::from_args(args);
    let _ = parser.next();
    match parser.next() {
        Err(e) => Some(e.to_string()),
        Ok(_) => None,
    }
}

/// `lexopt::Arg::unexpected` on the first argument: the crate's message for an
/// option or a value that the program does not accept.
#[verifier::external_body]
pub(crate) fn reject(args: &[String]) -> (r: String)
    requires
        shape(texts(args@)) !is End,
    ensures
        r@ == rejection(shape(texts(args@))),
{
    let mut parser = lexopt::Parser::from_args(args);
    match parser.next() {
        Ok(Some(arg)) => arg.unexpected().to_string(),
        Ok(None) => String::new(),
        Err(e) => e.to_string(),
    }
}

/// `Debug` of `str`, through `format!`: the quoted text.
#[verifier::external_body]
pub(crate) fn quote(s: &str) -> (r: String)
    ensures
        r@ == quoted(s@),
{
    format!("{s:?}")
}

} // verus!
