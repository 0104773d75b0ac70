//! The rules of the template language: which keywords, functions and methods there are,
//! how many arguments each takes and of which type, and what comes out.

use crate::template_syntax::{copy_range, model, models, read_program, Expr, ExprModel};
use vstd::prelude::*;
use vstd::slice::slice_to_vec;
use vstd::string::*;

verus! {

/// The types of the values of the template language.
#[derive(Clone, Copy, Debug, PartialEq, Eq, Structural)]
pub enum ValueType {
    String,
    Boolean,
    Integer,
    CommitOrChangeId,
    IdWithHighlightedPrefix,
    Signature,
    Timestamp,
    /// Formatted output without a value of its own.
    Template,
}

impl ValueType {
    /// The name of the type as it is shown.
    pub fn name(&self) -> (s: &'static str)
        ensures
            s@ == match self {
                ValueType::String => "String"@,
                ValueType::Boolean => "Boolean"@,
                ValueType::Integer => "Integer"@,
                ValueType::CommitOrChangeId => "CommitOrChangeId"@,
                ValueType::IdWithHighlightedPrefix => "IdWithHighlightedPrefix"@,
                ValueType::Signature => "Signature"@,
                ValueType::Timestamp => "Timestamp"@,
                ValueType::Template => "Template"@,
            },
    {
        match self {
            ValueType::String => "String",
            ValueType::Boolean => "Boolean",
            ValueType::Integer => "Integer",
            ValueType::CommitOrChangeId => "CommitOrChangeId",
            ValueType::IdWithHighlightedPrefix => "IdWithHighlightedPrefix",
            ValueType::Signature => "Signature",
            ValueType::Timestamp => "Timestamp",
            ValueType::Template => "Template",
        }
    }
}

/// What is wrong with an integer literal.
#[derive(Clone, Copy, Debug, PartialEq, Eq, Structural)]
pub enum IntegerError {
    /// The number does not fit 64 bits with a sign.
    PosOverflow,
}

/// What is wrong with a template.
#[derive(Clone, Debug, PartialEq, Eq)]
pub enum TemplateParseErrorKind {
    SyntaxError,
    ParseIntError(IntegerError),
    NoSuchKeyword(Vec<u8>),
    NoSuchFunction(Vec<u8>),
    NoSuchMethod { on_type: ValueType, name: Vec<u8> },
    InvalidArgumentCountExact(usize),
    InvalidArgumentCountRange { min: usize, max: usize },
    InvalidArgumentCountRangeFrom(usize),
    InvalidArgumentType(ValueType),
}

/// The model of a [`TemplateParseErrorKind`].
pub enum ErrorModel {
    SyntaxError,
    ParseIntError(IntegerError),
    NoSuchKeyword(Seq<u8>),
    NoSuchFunction(Seq<u8>),
    NoSuchMethod { on_type: ValueType, name: Seq<u8> },
    InvalidArgumentCountExact(usize),
    InvalidArgumentCountRange { min: usize, max: usize },
    InvalidArgumentCountRangeFrom(usize),
    InvalidArgumentType(ValueType),
}

impl View for TemplateParseErrorKind {
    type V = ErrorModel;

    open spec fn view(&self) -> ErrorModel {
        match self {
            TemplateParseErrorKind::SyntaxError => ErrorModel::SyntaxError,
            TemplateParseErrorKind::ParseIntError(e) => ErrorModel::ParseIntError(*e),
            TemplateParseErrorKind::NoSuchKeyword(name) => ErrorModel::NoSuchKeyword(name@),
            TemplateParseErrorKind::NoSuchFunction(name) => ErrorModel::NoSuchFunction(name@),
            TemplateParseErrorKind::NoSuchMethod { on_type, name } => ErrorModel::NoSuchMethod {
                on_type: *on_type,
                name: name@,
            },
            TemplateParseErrorKind::InvalidArgumentCountExact(count) => ErrorModel::InvalidArgumentCountExact(*count),
            TemplateParseErrorKind::InvalidArgumentCountRange { min, max } => ErrorModel::InvalidArgumentCountRange {
                min: *min,
                max: *max,
            },
            TemplateParseErrorKind::InvalidArgumentCountRangeFrom(count) => ErrorModel::InvalidArgumentCountRangeFrom(*count),
            TemplateParseErrorKind::InvalidArgumentType(ty) => ErrorModel::InvalidArgumentType(
                *ty,
            ),
        }
    }
}

/// A function takes no argument.
pub fn expect_no_arguments(count: usize) -> (r: Result<(), TemplateParseErrorKind>)
    ensures
        match r {
            Ok(_) => count == 0,
            Err(e) => count != 0 && e@ == ErrorModel::InvalidArgumentCountExact(0),
        },
{
    if count == 0 {
        Ok(())
    } else {
        Err(TemplateParseErrorKind::InvalidArgumentCountExact(0))
    }
}

/// A function takes exactly `required` arguments.
pub fn expect_exact_arguments(required: usize, count: usize) -> (r: Result<
    (),
    TemplateParseErrorKind,
>)
    ensures
        match r {
            Ok(_) => count == required,
            Err(e) => count != required && e@ == ErrorModel::InvalidArgumentCountExact(required),
        },
{
    if count == required {
        Ok(())
    } else {
        Err(TemplateParseErrorKind::InvalidArgumentCountExact(required))
    }
}

/// A function takes at least `required` arguments; returns how many it got beyond them.
pub fn expect_some_arguments(required: usize, count: usize) -> (r: Result<
    usize,
    TemplateParseErrorKind,
>)
    ensures
        match r {
            Ok(extra) => count >= required && extra == count - required,
            Err(e) => count < required && e@ == ErrorModel::InvalidArgumentCountRangeFrom(
                required,
            ),
        },
{
    if count >= required {
        Ok(count - required)
    } else {
        Err(TemplateParseErrorKind::InvalidArgumentCountRangeFrom(required))
    }
}

/// The greatest number of arguments of a function with `required` and `optional` ones.
pub open spec fn most_arguments(required: usize, optional: usize) -> usize {
    if required + optional > usize::MAX {
        usize::MAX
    } else {
        (required + optional) as usize
    }
}

/// A function takes `required` arguments and up to `optional` more; returns how many of
/// the optional ones it got.
pub fn expect_arguments(required: usize, optional: usize, count: usize) -> (r: Result<
    usize,
    TemplateParseErrorKind,
>)
    ensures
        match r {
            Ok(extra) => required <= count <= most_arguments(required, optional) && extra == count
                - required,
            Err(e) => !(required <= count <= most_arguments(required, optional)) && e@ == (
            ErrorModel::InvalidArgumentCountRange {
                min: required,
                max: most_arguments(required, optional),
            }),
        },
{
    let max = if optional > usize::MAX - required {
        usize::MAX
    } else {
        required + optional
    };
    if required <= count && count <= max {
        Ok(count - required)
    } else {
        Err(TemplateParseErrorKind::InvalidArgumentCountRange { min: required, max })
    }
}

/// The number that decimal digits stand for.
pub open spec fn digits_value(digits: Seq<u8>) -> nat
    decreases digits.len(),
{
    if digits.len() == 0 {
        0
    } else {
        digits_value(digits.drop_last()) * 10 + (digits.last() - 48) as nat
    }
}

/// The value of digits does not shrink when more digits follow.
pub proof fn lemma_digits_grow(digits: Seq<u8>, n: int)
    requires
        0 <= n <= digits.len(),
        forall|i: int| 0 <= i < digits.len() ==> 48 <= #[trigger] digits[i] <= 57,
    ensures
        digits_value(digits.take(n)) <= digits_value(digits),
    decreases digits.len() - n,
{
    if n < digits.len() {
        assert(digits.take(n + 1).drop_last() =~= digits.take(n));
        assert(48 <= digits[n] <= 57);
        lemma_digits_grow(digits, n + 1);
    } else {
        assert(digits.take(n) =~= digits);
    }
}

/// The number that an integer literal stands for, if it fits 64 bits with a sign.
pub fn integer_value(digits: &Vec<u8>) -> (r: Result<i64, IntegerError>)
    requires
        forall|i: int| 0 <= i < digits@.len() ==> 48 <= #[trigger] digits@[i] <= 57,
    ensures
        match r {
            Ok(value) => value == digits_value(digits@),
            Err(_) => digits_value(digits@) > i64::MAX,
        },
{
    let mut value: u64 = 0;
    let mut i: usize = 0;
    proof {
        assert(digits@.take(0) =~= Seq::<u8>::empty());
    }
    while i < digits.len()
        invariant
            i <= digits@.len(),
            forall|j: int| 0 <= j < digits@.len() ==> 48 <= #[trigger] digits@[j] <= 57,
            value == digits_value(digits@.take(i as int)),
            value <= i64::MAX,
        decreases digits@.len() - i,
    {
        let digit = (digits[i] - 48) as u64;
        proof {
            assert(digits@.take(i + 1).drop_last() =~= digits@.take(i as int));
        }
        if value > (0x7fff_ffff_ffff_ffffu64 - digit) / 10 {
            proof {
                assert(digits_value(digits@.take(i + 1)) > i64::MAX);
                lemma_digits_grow(digits@, i + 1);
            }
            return Err(IntegerError::PosOverflow);
        }
        value = value * 10 + digit;
        i += 1;
    }
    proof {
        assert(digits@.take(digits@.len() as int) =~= digits@);
    }
    Ok(value as i64)
}

/// Whether the bytes are an integer literal: `0`, or digits of which the first is not `0`.
pub open spec fn is_integer_literal(digits: Seq<u8>) -> bool {
    &&& digits.len() > 0
    &&& forall|i: int| 0 <= i < digits.len() ==> 48 <= #[trigger] digits[i] <= 57
    &&& (digits.len() == 1 || digits[0] != 48)
}

/// Whether the bytes are an integer literal.
pub fn check_integer_literal(digits: &Vec<u8>) -> (b: bool)
    ensures
        b == is_integer_literal(digits@),
{
    if digits.len() == 0 {
        return false;
    }
    if digits.len() > 1 && digits[0] == 48 {
        return false;
    }
    let mut i: usize = 0;
    while i < digits.len()
        invariant
            i <= digits@.len(),
            forall|j: int| 0 <= j < i ==> 48 <= #[trigger] digits@[j] <= 57,
        decreases digits@.len() - i,
    {
        if digits[i] < 48 || digits[i] > 57 {
            return false;
        }
        i += 1;
    }
    true
}

/// Whether both byte strings are the same.
pub fn bytes_equal(a: &Vec<u8>, b: &[u8]) -> (r: bool)
    ensures
        r == (a@ == b@),
{
    if a.len() != b.len() {
        return false;
    }
    let mut i: usize = 0;
    while i < a.len()
        invariant
            i <= a@.len(),
            a@.len() == b@.len(),
            forall|j: int| 0 <= j < i ==> a@[j] == b@[j],
        decreases a@.len() - i,
    {
        if a[i] != b[i] {
            return false;
        }
        i += 1;
    }
    proof {
        assert(a@ =~= b@);
    }
    true
}

/// Whether the name is the given word.
pub fn named(name: &Vec<u8>, word: &str) -> (r: bool)
    ensures
        r == (name@ == word.spec_bytes()),
{
    bytes_equal(name, word.as_bytes())
}

/// How many arguments a function or method takes.
#[derive(Clone, Copy, Debug, PartialEq, Eq, Structural)]
pub enum ArgumentCount {
    Exact(usize),
    Range { min: usize, max: usize },
    AtLeast(usize),
}

/// What the first argument of a function or method has to be.
#[derive(Clone, Copy, Debug, PartialEq, Eq, Structural)]
pub enum ArgumentRule {
    /// Anything.
    Any,
    /// A boolean, or a string, which counts as true unless it is empty.
    Boolean,
    /// An integer.
    Integer,
}

/// What a function or method takes and gives.
#[derive(Clone, Copy, Debug, PartialEq, Eq, Structural)]
pub struct Shape {
    pub count: ArgumentCount,
    pub first: ArgumentRule,
    pub result: ValueType,
}

/// What is wrong with a number of arguments, if anything.
pub open spec fn count_error(expected: ArgumentCount, count: int) -> Option<ErrorModel> {
    match expected {
        ArgumentCount::Exact(n) => if count == n {
            None
        } else {
            Some(ErrorModel::InvalidArgumentCountExact(n))
        },
        ArgumentCount::Range { min, max } => if min <= count <= max {
            None
        } else {
            Some(ErrorModel::InvalidArgumentCountRange { min, max })
        },
        ArgumentCount::AtLeast(n) => if count >= n {
            None
        } else {
            Some(ErrorModel::InvalidArgumentCountRangeFrom(n))
        },
    }
}

/// What is wrong with a number of arguments, if anything.
pub fn check_count(expected: ArgumentCount, count: usize) -> (r: Result<(), TemplateParseErrorKind>)
    ensures
        match r {
            Ok(_) => count_error(expected, count as int) is None,
            Err(e) => count_error(expected, count as int) == Some(e@),
        },
{
    match expected {
        ArgumentCount::Exact(n) => expect_exact_arguments(n, count),
        ArgumentCount::Range { min, max } => {
            if min <= count && count <= max {
                Ok(())
            } else {
                Err(TemplateParseErrorKind::InvalidArgumentCountRange { min, max })
            }
        },
        ArgumentCount::AtLeast(n) => match expect_some_arguments(n, count) {
            Ok(_) => Ok(()),
            Err(e) => Err(e),
        },
    }
}

/// What is wrong with the type of an argument under a rule, if anything.
pub open spec fn rule_error(rule: ArgumentRule, ty: ValueType) -> Option<ErrorModel> {
    match rule {
        ArgumentRule::Any => None,
        ArgumentRule::Boolean => if ty == ValueType::Boolean || ty == ValueType::String {
            None
        } else {
            Some(ErrorModel::InvalidArgumentType(ValueType::Boolean))
        },
        ArgumentRule::Integer => if ty == ValueType::Integer {
            None
        } else {
            Some(ErrorModel::InvalidArgumentType(ValueType::Integer))
        },
    }
}

/// What is wrong with the type of an argument under a rule, if anything.
pub fn check_rule(rule: ArgumentRule, ty: ValueType) -> (r: Result<(), TemplateParseErrorKind>)
    ensures
        match r {
            Ok(_) => rule_error(rule, ty) is None,
            Err(e) => rule_error(rule, ty) == Some(e@),
        },
{
    match rule {
        ArgumentRule::Any => Ok(()),
        ArgumentRule::Boolean => match ty {
            ValueType::Boolean => Ok(()),
            ValueType::String => Ok(()),
            _ => Err(TemplateParseErrorKind::InvalidArgumentType(ValueType::Boolean)),
        },
        ArgumentRule::Integer => match ty {
            ValueType::Integer => Ok(()),
            _ => Err(TemplateParseErrorKind::InvalidArgumentType(ValueType::Integer)),
        },
    }
}

/// The functions of the language: `label` takes a label and content, `if` a condition,
/// what to show if it holds and, optionally, what to show if not, and `separate` a
/// separator and any number of parts.
pub open spec fn function_shape(name: Seq<u8>) -> Option<Shape> {
    if name == "label".spec_bytes() {
        Some(
            Shape {
                count: ArgumentCount::Exact(2),
                first: ArgumentRule::Any,
                result: ValueType::Template,
            },
        )
    } else if name == "if".spec_bytes() {
        Some(
            Shape {
                count: ArgumentCount::Range { min: 2, max: 3 },
                first: ArgumentRule::Boolean,
                result: ValueType::Template,
            },
        )
    } else if name == "separate".spec_bytes() {
        Some(
            Shape {
                count: ArgumentCount::AtLeast(1),
                first: ArgumentRule::Any,
                result: ValueType::Template,
            },
        )
    } else {
        None
    }
}

/// The shape of the function of the given name, if there is one.
pub fn find_function(name: &Vec<u8>) -> (r: Option<Shape>)
    ensures
        r == function_shape(name@),
{
    if named(name, "label") {
        Some(
            Shape {
                count: ArgumentCount::Exact(2),
                first: ArgumentRule::Any,
                result: ValueType::Template,
            },
        )
    } else if named(name, "if") {
        Some(
            Shape {
                count: ArgumentCount::Range { min: 2, max: 3 },
                first: ArgumentRule::Boolean,
                result: ValueType::Template,
            },
        )
    } else if named(name, "separate") {
        Some(
            Shape {
                count: ArgumentCount::AtLeast(1),
                first: ArgumentRule::Any,
                result: ValueType::Template,
            },
        )
    } else {
        None
    }
}

/// A method without arguments that gives a value of the type.
pub open spec fn getter(result: ValueType) -> Shape {
    Shape { count: ArgumentCount::Exact(0), first: ArgumentRule::Any, result }
}

/// A method that takes an optional length and gives a value of the type.
pub open spec fn shortener(result: ValueType) -> Shape {
    Shape { count: ArgumentCount::Range { min: 0, max: 1 }, first: ArgumentRule::Integer, result }
}

/// The methods of the language, by the type of the value they are called on.
pub open spec fn method_shape(on: ValueType, name: Seq<u8>) -> Option<Shape> {
    match on {
        ValueType::String => if name == "contains".spec_bytes() {
            Some(
                Shape {
                    count: ArgumentCount::Exact(1),
                    first: ArgumentRule::Any,
                    result: ValueType::Boolean,
                },
            )
        } else if name == "first_line".spec_bytes() {
            Some(getter(ValueType::String))
        } else {
            None
        },
        ValueType::CommitOrChangeId => if name == "short".spec_bytes() {
            Some(shortener(ValueType::String))
        } else if name == "shortest_prefix_and_brackets".spec_bytes() {
            Some(shortener(ValueType::String))
        } else if name == "shortest_styled_prefix".spec_bytes() {
            Some(shortener(ValueType::IdWithHighlightedPrefix))
        } else {
            None
        },
        ValueType::Signature => if name == "name".spec_bytes() {
            Some(getter(ValueType::String))
        } else if name == "email".spec_bytes() {
            Some(getter(ValueType::String))
        } else if name == "timestamp".spec_bytes() {
            Some(getter(ValueType::Timestamp))
        } else {
            None
        },
        ValueType::Timestamp => if name == "ago".spec_bytes() {
            Some(getter(ValueType::String))
        } else {
            None
        },
        _ => None,
    }
}

/// The shape of the method of the given name on a value of the type, if there is one.
pub fn find_method(on: ValueType, name: &Vec<u8>) -> (r: Option<Shape>)
    ensures
        r == method_shape(on, name@),
{
    match on {
        ValueType::String => {
            if named(name, "contains") {
                Some(
                    Shape {
                        count: ArgumentCount::Exact(1),
                        first: ArgumentRule::Any,
                        result: ValueType::Boolean,
                    },
                )
            } else if named(name, "first_line") {
                Some(
                    Shape {
                        count: ArgumentCount::Exact(0),
                        first: ArgumentRule::Any,
                        result: ValueType::String,
                    },
                )
            } else {
                None
            }
        },
        ValueType::CommitOrChangeId => {
            let result = if named(name, "short") {
                ValueType::String
            } else if named(name, "shortest_prefix_and_brackets") {
                ValueType::String
            } else if named(name, "shortest_styled_prefix") {
                ValueType::IdWithHighlightedPrefix
            } else {
                return None;
            };
            Some(
                Shape {
                    count: ArgumentCount::Range { min: 0, max: 1 },
                    first: ArgumentRule::Integer,
                    result,
                },
            )
        },
        ValueType::Signature => {
            let result = if named(name, "name") {
                ValueType::String
            } else if named(name, "email") {
                ValueType::String
            } else if named(name, "timestamp") {
                ValueType::Timestamp
            } else {
                return None;
            };
            Some(Shape { count: ArgumentCount::Exact(0), first: ArgumentRule::Any, result })
        },
        ValueType::Timestamp => {
            if named(name, "ago") {
                Some(
                    Shape {
                        count: ArgumentCount::Exact(0),
                        first: ArgumentRule::Any,
                        result: ValueType::String,
                    },
                )
            } else {
                None
            }
        },
        _ => None,
    }
}

/// A keyword: a name that stands for a value of the context.
#[derive(Clone, Debug, PartialEq, Eq)]
pub struct Keyword {
    pub name: Vec<u8>,
    pub ty: ValueType,
}

/// The model of a [`Keyword`].
pub struct KeywordModel {
    pub name: Seq<u8>,
    pub ty: ValueType,
}

impl View for Keyword {
    type V = KeywordModel;

    open spec fn view(&self) -> KeywordModel {
        KeywordModel { name: self.name@, ty: self.ty }
    }
}

/// The models of a table of keywords.
pub open spec fn keyword_models(keywords: Seq<Keyword>) -> Seq<KeywordModel> {
    Seq::new(keywords.len(), |i: int| keywords[i]@)
}

/// The type of the keyword of the given name in the first table entry that has it.
pub open spec fn keyword_type(keywords: Seq<KeywordModel>, name: Seq<u8>) -> Option<ValueType>
    decreases keywords.len(),
{
    if keywords.len() == 0 {
        None
    } else if keywords[0].name == name {
        Some(keywords[0].ty)
    } else {
        keyword_type(keywords.skip(1), name)
    }
}

/// The type of the keyword of the given name, if there is one.
pub fn find_keyword(keywords: &Vec<Keyword>, name: &Vec<u8>) -> (r: Option<ValueType>)
    ensures
        r == keyword_type(keyword_models(keywords@), name@),
{
    let ghost table = keyword_models(keywords@);
    let mut i: usize = 0;
    proof {
        assert(table.skip(0) =~= table);
    }
    while i < keywords.len()
        invariant
            i <= keywords@.len(),
            table == keyword_models(keywords@),
            keyword_type(table, name@) == keyword_type(table.skip(i as int), name@),
        decreases keywords@.len() - i,
    {
        proof {
            assert(table.skip(i as int)[0] == keywords@[i as int]@);
            assert(table.skip(i as int).skip(1) =~= table.skip(i + 1));
        }
        if bytes_equal(name, keywords[i].name.as_slice()) {
            return Some(keywords[i].ty);
        }
        i += 1;
    }
    None
}

/// The names of the keywords that stand for the properties of a commit.
pub open spec fn commit_keyword_names() -> Seq<Seq<u8>> {
    seq![
        "description".spec_bytes(),
        "change_id".spec_bytes(),
        "commit_id".spec_bytes(),
        "author".spec_bytes(),
        "committer".spec_bytes(),
        "working_copies".spec_bytes(),
        "current_working_copy".spec_bytes(),
        "branches".spec_bytes(),
        "tags".spec_bytes(),
        "git_refs".spec_bytes(),
        "git_head".spec_bytes(),
        "divergent".spec_bytes(),
        "conflict".spec_bytes(),
        "empty".spec_bytes(),
    ]
}

/// The types of the keywords that stand for the properties of a commit, in the order of
/// their names.
pub open spec fn commit_keyword_types() -> Seq<ValueType> {
    seq![
        ValueType::String,
        ValueType::CommitOrChangeId,
        ValueType::CommitOrChangeId,
        ValueType::Signature,
        ValueType::Signature,
        ValueType::String,
        ValueType::Boolean,
        ValueType::String,
        ValueType::String,
        ValueType::String,
        ValueType::String,
        ValueType::Boolean,
        ValueType::Boolean,
        ValueType::Boolean,
    ]
}

/// The keywords that stand for the properties of a commit.
pub open spec fn commit_keyword_table() -> Seq<KeywordModel> {
    Seq::new(
        14,
        |i: int| KeywordModel { name: commit_keyword_names()[i], ty: commit_keyword_types()[i] },
    )
}

/// A keyword of the given name and type.
pub fn keyword(name: &str, ty: ValueType) -> (k: Keyword)
    ensures
        k.name@ == name.spec_bytes(),
        k.ty == ty,
{
    Keyword { name: slice_to_vec(name.as_bytes()), ty }
}

/// The keywords that stand for the properties of a commit.
pub fn commit_keywords() -> (keywords: Vec<Keyword>)
    ensures
        keyword_models(keywords@) == commit_keyword_table(),
{
    let mut keywords: Vec<Keyword> = Vec::new();
    keywords.push(keyword("description", ValueType::String));
    keywords.push(keyword("change_id", ValueType::CommitOrChangeId));
    keywords.push(keyword("commit_id", ValueType::CommitOrChangeId));
    keywords.push(keyword("author", ValueType::Signature));
    keywords.push(keyword("committer", ValueType::Signature));
    keywords.push(keyword("working_copies", ValueType::String));
    keywords.push(keyword("current_working_copy", ValueType::Boolean));
    keywords.push(keyword("branches", ValueType::String));
    keywords.push(keyword("tags", ValueType::String));
    keywords.push(keyword("git_refs", ValueType::String));
    keywords.push(keyword("git_head", ValueType::String));
    keywords.push(keyword("divergent", ValueType::Boolean));
    keywords.push(keyword("conflict", ValueType::Boolean));
    keywords.push(keyword("empty", ValueType::Boolean));
    proof {
        assert(keyword_models(keywords@) =~= commit_keyword_table());
    }
    keywords
}

/// What a template gives: the type of its value, and the labels under which the value is
/// shown.
#[derive(Clone, Debug, PartialEq, Eq)]
pub struct Typed {
    pub ty: ValueType,
    pub labels: Vec<Vec<u8>>,
}

/// The model of a [`Typed`].
pub struct TypedModel {
    pub ty: ValueType,
    pub labels: Seq<Seq<u8>>,
}

impl View for Typed {
    type V = TypedModel;

    open spec fn view(&self) -> TypedModel {
        TypedModel { ty: self.ty, labels: Seq::new(self.labels@.len(), |i: int| self.labels@[i]@) }
    }
}

/// What is wrong with the first `n` of the arguments or with the type of the first of
/// them, if anything: the first error, going from left to right.
pub open spec fn first_error(
    items: Seq<ExprModel>,
    keywords: Seq<KeywordModel>,
    first: ArgumentRule,
    n: nat,
) -> Option<ErrorModel>
    decreases items, 0nat, n,
{
    if n == 0 {
        None
    } else {
        match first_error(items, keywords, first, (n - 1) as nat) {
            Some(e) => Some(e),
            None => if n > items.len() {
                None
            } else {
                match checked(items[n - 1], keywords) {
                    Err(e) => Some(e),
                    Ok(typed) => if n == 1 {
                        rule_error(first, typed.ty)
                    } else {
                        None
                    },
                }
            },
        }
    }
}

/// What a call gives under a shape, once the callee is known.
pub open spec fn applied(
    shape: Shape,
    args: Seq<ExprModel>,
    keywords: Seq<KeywordModel>,
    labels: Seq<Seq<u8>>,
) -> Result<TypedModel, ErrorModel>
    decreases args, 1nat, 0nat,
{
    match count_error(shape.count, args.len() as int) {
        Some(e) => Err(e),
        None => match first_error(args, keywords, shape.first, args.len()) {
            Some(e) => Err(e),
            None => Ok(TypedModel { ty: shape.result, labels }),
        },
    }
}

/// What a template gives, or what is wrong with it: the first error, going from left to
/// right and from the inside out.
pub open spec fn checked(e: ExprModel, keywords: Seq<KeywordModel>) -> Result<TypedModel, ErrorModel>
    decreases e, 0nat, 0nat,
{
    match e {
        ExprModel::Literal(_) => Ok(TypedModel { ty: ValueType::String, labels: Seq::empty() }),
        ExprModel::Integer(digits) => if !is_integer_literal(digits) {
            Err(ErrorModel::SyntaxError)
        } else if digits_value(digits) > i64::MAX {
            Err(ErrorModel::ParseIntError(IntegerError::PosOverflow))
        } else {
            Ok(TypedModel { ty: ValueType::Integer, labels: Seq::empty() })
        },
        ExprModel::Identifier(name) => match keyword_type(keywords, name) {
            Some(ty) => Ok(TypedModel { ty, labels: seq![name] }),
            None => Err(ErrorModel::NoSuchKeyword(name)),
        },
        ExprModel::Function { name, args } => match function_shape(name) {
            Some(shape) => applied(shape, args, keywords, Seq::empty()),
            None => Err(ErrorModel::NoSuchFunction(name)),
        },
        ExprModel::Method { object, name, args } => match checked(*object, keywords) {
            Err(e) => Err(e),
            Ok(on) => match method_shape(on.ty, name) {
                Some(shape) => applied(shape, args, keywords, on.labels.push(name)),
                None => Err(ErrorModel::NoSuchMethod { on_type: on.ty, name }),
            },
        },
        ExprModel::List(items) => match first_error(
            items,
            keywords,
            ArgumentRule::Any,
            items.len(),
        ) {
            Some(e) => Err(e),
            None => Ok(TypedModel { ty: ValueType::Template, labels: Seq::empty() }),
        },
    }
}

/// A copy of a byte string.
pub fn copy_name(name: &Vec<u8>) -> (r: Vec<u8>)
    ensures
        r@ == name@,
{
    let r = copy_range(name, 0, name.len());
    proof {
        assert(name@.subrange(0, name@.len() as int) =~= name@);
    }
    r
}

/// What is wrong with the arguments or with the type of the first of them, if anything.
pub fn check_all(items: &Vec<Expr>, keywords: &Vec<Keyword>, first: ArgumentRule) -> (r: Result<
    (),
    TemplateParseErrorKind,
>)
    ensures
        match r {
            Ok(_) => first_error(models(items@), keyword_models(keywords@), first, items@.len()) is None,
            Err(e) => first_error(models(items@), keyword_models(keywords@), first, items@.len()) == Some(e@),
        },
    decreases items, 0nat, 1nat,
{
    let mut i: usize = 0;
    while i < items.len()
        invariant
            i <= items@.len(),
            first_error(models(items@), keyword_models(keywords@), first, i as nat) is None,
        decreases items@.len() - i,
    {
        proof {
            assert(models(items@)[i as int] == model(items@[i as int]));
        }
        let typed = match check(&items[i], keywords) {
            Ok(typed) => typed,
            Err(e) => {
                proof {
                    lemma_first_error_stays(
                        models(items@),
                        keyword_models(keywords@),
                        first,
                        (i + 1) as nat,
                        items@.len(),
                    );
                }
                return Err(e);
            },
        };
        if i == 0 {
            match check_rule(first, typed.ty) {
                Ok(_) => {},
                Err(e) => {
                    proof {
                        lemma_first_error_stays(
                            models(items@),
                            keyword_models(keywords@),
                            first,
                            1,
                            items@.len(),
                        );
                    }
                    return Err(e);
                },
            }
        }
        i += 1;
    }
    Ok(())
}

/// An error among the first `n` arguments is the error among any more of them.
pub proof fn lemma_first_error_stays(
    items: Seq<ExprModel>,
    keywords: Seq<KeywordModel>,
    first: ArgumentRule,
    n: nat,
    m: nat,
)
    requires
        n <= m,
        first_error(items, keywords, first, n) is Some,
    ensures
        first_error(items, keywords, first, m) == first_error(items, keywords, first, n),
    decreases m,
{
    if n < m {
        lemma_first_error_stays(items, keywords, first, n, (m - 1) as nat);
    }
}

/// What a call gives under a shape, once the callee is known.
pub fn apply(shape: Shape, args: &Vec<Expr>, keywords: &Vec<Keyword>, labels: Vec<Vec<u8>>) -> (r:
    Result<Typed, TemplateParseErrorKind>)
    ensures
        match r {
            Ok(typed) => applied(
                shape,
                models(args@),
                keyword_models(keywords@),
                Seq::new(labels@.len(), |i: int| labels@[i]@),
            ) == Ok::<TypedModel, ErrorModel>(typed@),
            Err(e) => applied(
                shape,
                models(args@),
                keyword_models(keywords@),
                Seq::new(labels@.len(), |i: int| labels@[i]@),
            ) == Err::<TypedModel, ErrorModel>(e@),
        },
    decreases args, 1nat, 0nat,
{
    match check_count(shape.count, args.len()) {
        Ok(_) => {},
        Err(e) => {
            return Err(e);
        },
    }
    match check_all(args, keywords, shape.first) {
        Ok(_) => Ok(Typed { ty: shape.result, labels }),
        Err(e) => Err(e),
    }
}

/// What a template gives, or what is wrong with it.
pub fn check(e: &Expr, keywords: &Vec<Keyword>) -> (r: Result<Typed, TemplateParseErrorKind>)
    ensures
        match r {
            Ok(typed) => checked(model(*e), keyword_models(keywords@)) == Ok::<TypedModel, ErrorModel>(typed@),
            Err(kind) => checked(model(*e), keyword_models(keywords@)) == Err::<TypedModel, ErrorModel>(kind@),
        },
    decreases e, 0nat, 0nat,
{
    match e {
        Expr::Literal(_) => {
            let typed = Typed { ty: ValueType::String, labels: Vec::new() };
            proof {
                assert(typed@.labels =~= Seq::<Seq<u8>>::empty());
            }
            Ok(typed)
        },
        Expr::Integer(digits) => {
            if !check_integer_literal(digits) {
                return Err(TemplateParseErrorKind::SyntaxError);
            }
            match integer_value(digits) {
                Ok(_) => {
                    let typed = Typed { ty: ValueType::Integer, labels: Vec::new() };
                    proof {
                        assert(typed@.labels =~= Seq::<Seq<u8>>::empty());
                    }
                    Ok(typed)
                },
                Err(e) => Err(TemplateParseErrorKind::ParseIntError(e)),
            }
        },
        Expr::Identifier(name) => match find_keyword(keywords, name) {
            Some(ty) => {
                let mut labels: Vec<Vec<u8>> = Vec::new();
                labels.push(copy_name(name));
                let typed = Typed { ty, labels };
                proof {
                    assert(typed@.labels =~= seq![name@]);
                }
                Ok(typed)
            },
            None => Err(TemplateParseErrorKind::NoSuchKeyword(copy_name(name))),
        },
        Expr::Function { name, args } => match find_function(name) {
            Some(shape) => {
                let labels: Vec<Vec<u8>> = Vec::new();
                proof {
                    assert(Seq::new(labels@.len(), |i: int| labels@[i]@) =~= Seq::<
                        Seq<u8>,
                    >::empty());
                }
                apply(shape, args, keywords, labels)
            },
            None => Err(TemplateParseErrorKind::NoSuchFunction(copy_name(name))),
        },
        Expr::Method { object, name, args } => {
            let on = match check(object, keywords) {
                Ok(on) => on,
                Err(e) => {
                    return Err(e);
                },
            };
            match find_method(on.ty, name) {
                Some(shape) => {
                    let ghost before = on@.labels;
                    let mut labels = on.labels;
                    labels.push(copy_name(name));
                    proof {
                        assert(Seq::new(labels@.len(), |i: int| labels@[i]@) =~= before.push(
                            name@,
                        ));
                    }
                    apply(shape, args, keywords, labels)
                },
                None => Err(
                    TemplateParseErrorKind::NoSuchMethod { on_type: on.ty, name: copy_name(name) },
                ),
            }
        },
        Expr::List(items) => match check_all(items, keywords, ArgumentRule::Any) {
            Ok(_) => {
                let typed = Typed { ty: ValueType::Template, labels: Vec::new() };
                proof {
                    assert(typed@.labels =~= Seq::<Seq<u8>>::empty());
                }
                Ok(typed)
            },
            Err(e) => Err(e),
        },
    }
}

/// What a text gives as a template: the empty text is an empty template.
pub open spec fn template_result(text: Seq<u8>, keywords: Seq<KeywordModel>) -> Result<
    TypedModel,
    ErrorModel,
> {
    match crate::template_syntax::parse_program(text) {
        None => Err(ErrorModel::SyntaxError),
        Some(None) => Ok(TypedModel { ty: ValueType::Template, labels: Seq::empty() }),
        Some(Some(e)) => checked(e, keywords),
    }
}

/// The parser of the template language.
#[derive(Clone, Copy, Debug, PartialEq, Eq, Structural)]
pub struct TemplateParser;

impl TemplateParser {
    /// The template that the text is, as it was written; none for a text of white space.
    pub fn parse(text: &Vec<u8>) -> (r: Result<Option<Expr>, TemplateParseErrorKind>)
        ensures
            match r {
                Ok(Some(e)) => crate::template_syntax::parse_program(text@) == Some(
                    Some(model(e)),
                ),
                Ok(None) => crate::template_syntax::parse_program(text@) == Some(
                    None::<ExprModel>,
                ),
                Err(kind) => crate::template_syntax::parse_program(text@) is None && kind@
                    == ErrorModel::SyntaxError,
            },
    {
        match read_program(text) {
            Some(program) => Ok(program),
            None => Err(TemplateParseErrorKind::SyntaxError),
        }
    }
}

/// What the text gives as a template over the given keywords, or what is wrong with it: a
/// syntax error before any other error.
pub fn parse_template(text: &Vec<u8>, keywords: &Vec<Keyword>) -> (r: Result<
    Typed,
    TemplateParseErrorKind,
>)
    ensures
        match r {
            Ok(typed) => template_result(text@, keyword_models(keywords@)) == Ok::<TypedModel, ErrorModel>(typed@),
            Err(kind) => template_result(text@, keyword_models(keywords@)) == Err::<TypedModel, ErrorModel>(kind@),
        },
{
    match TemplateParser::parse(text) {
        Err(kind) => Err(kind),
        Ok(None) => {
            let typed = Typed { ty: ValueType::Template, labels: Vec::new() };
            proof {
                assert(typed@.labels =~= Seq::<Seq<u8>>::empty());
            }
            Ok(typed)
        },
        Ok(Some(e)) => check(&e, keywords),
    }
}

/// What the text gives as a template over the properties of a commit.
pub fn parse_commit_template(text: &Vec<u8>) -> (r: Result<Typed, TemplateParseErrorKind>)
    ensures
        match r {
            Ok(typed) => template_result(text@, commit_keyword_table()) == Ok::<
                TypedModel,
                ErrorModel,
            >(typed@),
            Err(kind) => template_result(text@, commit_keyword_table()) == Err::<
                TypedModel,
                ErrorModel,
            >(kind@),
        },
{
    let keywords = commit_keywords();
    parse_template(text, &keywords)
}

} // verus!
