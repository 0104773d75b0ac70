//! The grammar of the template language.
//!
//! ```text
//! program    = ws* template? ws* end
//! template   = term (ws+ term)*
//! term       = primary ("." function)*
//! primary    = "(" ws* template ws* ")" | function | identifier | literal | integer
//! function   = identifier "(" ws* (template ws* ("," ws* template ws*)*)? ")"
//! identifier = (letter | "_") (letter | digit | "_")*
//! integer    = "0" | nonzero digit*
//! literal    = '"' (character | '\' ('n' | '"' | '\'))* '"'
//! ws         = " " | newline
//! ```
//!
//! A template of one term is that term; a template of several terms is their list. Text in
//! parentheses is the template inside.

use vstd::prelude::*;

verus! {

pub const SPACE: u8 = 32;

pub const NEWLINE: u8 = 10;

pub const QUOTE: u8 = 34;

pub const OPEN: u8 = 40;

pub const CLOSE: u8 = 41;

pub const COMMA: u8 = 44;

pub const DOT: u8 = 46;

pub const BACKSLASH: u8 = 92;

pub const UNDERSCORE: u8 = 95;

pub const LOWER_N: u8 = 110;

/// A template as it was written.
#[derive(Debug, PartialEq, Eq)]
pub enum Expr {
    /// A string literal, with what it stands for.
    Literal(Vec<u8>),
    /// An integer literal, with its digits.
    Integer(Vec<u8>),
    /// A keyword.
    Identifier(Vec<u8>),
    /// A call of a function.
    Function { name: Vec<u8>, args: Vec<Expr> },
    /// A call of a method on what stands before the dot.
    Method { object: Box<Expr>, name: Vec<u8>, args: Vec<Expr> },
    /// Several terms side by side.
    List(Vec<Expr>),
}

/// The model of an [`Expr`].
pub enum ExprModel {
    Literal(Seq<u8>),
    Integer(Seq<u8>),
    Identifier(Seq<u8>),
    Function { name: Seq<u8>, args: Seq<ExprModel> },
    Method { object: Box<ExprModel>, name: Seq<u8>, args: Seq<ExprModel> },
    List(Seq<ExprModel>),
}

/// The models of a list of templates.
pub open spec fn models(items: Seq<Expr>) -> Seq<ExprModel>
    decreases items,
{
    Seq::new(
        items.len(),
        |i: int|
            if 0 <= i < items.len() {
                model(items[i])
            } else {
                ExprModel::List(Seq::empty())
            },
    )
}

/// The model of a template.
pub open spec fn model(e: Expr) -> ExprModel
    decreases e,
{
    match e {
        Expr::Literal(text) => ExprModel::Literal(text@),
        Expr::Integer(digits) => ExprModel::Integer(digits@),
        Expr::Identifier(name) => ExprModel::Identifier(name@),
        Expr::Function { name, args } => ExprModel::Function { name: name@, args: models(args@) },
        Expr::Method { object, name, args } => ExprModel::Method {
            object: Box::new(model(*object)),
            name: name@,
            args: models(args@),
        },
        Expr::List(items) => ExprModel::List(models(items@)),
    }
}

/// Whether the byte is white space.
pub open spec fn is_ws(b: u8) -> bool {
    b == SPACE || b == NEWLINE
}

/// Whether the byte is a decimal digit.
pub open spec fn is_digit(b: u8) -> bool {
    48 <= b <= 57
}

/// Whether an identifier can start with the byte.
pub open spec fn is_ident_start(b: u8) -> bool {
    (65 <= b <= 90) || (97 <= b <= 122) || b == UNDERSCORE
}

/// Whether an identifier can go on with the byte.
pub open spec fn is_ident_char(b: u8) -> bool {
    is_ident_start(b) || is_digit(b)
}

/// Whether a term can start with the byte.
pub open spec fn starts_term(b: u8) -> bool {
    b == OPEN || b == QUOTE || is_digit(b) || is_ident_start(b)
}

/// Where the white space from `i` on ends.
pub open spec fn skip_ws(s: Seq<u8>, i: int) -> int
    decreases s.len() - i,
{
    if 0 <= i < s.len() && is_ws(s[i]) {
        skip_ws(s, i + 1)
    } else {
        i
    }
}

/// Where the identifier characters from `i` on end.
pub open spec fn ident_end(s: Seq<u8>, i: int) -> int
    decreases s.len() - i,
{
    if 0 <= i < s.len() && is_ident_char(s[i]) {
        ident_end(s, i + 1)
    } else {
        i
    }
}

/// Where the digits from `i` on end.
pub open spec fn digits_end(s: Seq<u8>, i: int) -> int
    decreases s.len() - i,
{
    if 0 <= i < s.len() && is_digit(s[i]) {
        digits_end(s, i + 1)
    } else {
        i
    }
}

/// Where the integer literal that starts at `i` ends: a `0` stands alone.
pub open spec fn integer_end(s: Seq<u8>, i: int) -> int {
    if 0 <= i < s.len() && s[i] == 48 {
        i + 1
    } else {
        digits_end(s, i)
    }
}

/// What the rest of a string literal from `i` on adds to `decoded`, and where the literal
/// ends, behind its closing quote. Nothing if the literal does not end or holds a
/// backslash that escapes nothing.
pub open spec fn literal_rest(s: Seq<u8>, decoded: Seq<u8>, i: int) -> Option<(Seq<u8>, int)>
    decreases s.len() - i,
{
    if !(0 <= i < s.len()) {
        None
    } else if s[i] == QUOTE {
        Some((decoded, i + 1))
    } else if s[i] == BACKSLASH {
        if i + 1 < s.len() && s[i + 1] == LOWER_N {
            literal_rest(s, decoded.push(NEWLINE), i + 2)
        } else if i + 1 < s.len() && (s[i + 1] == QUOTE || s[i + 1] == BACKSLASH) {
            literal_rest(s, decoded.push(s[i + 1]), i + 2)
        } else {
            None
        }
    } else {
        literal_rest(s, decoded.push(s[i]), i + 1)
    }
}

/// What a parser hands on: the template it read and where it stopped.
pub type Parsed = Option<(ExprModel, int)>;

/// The template of one or several terms.
pub open spec fn bundle(items: Seq<ExprModel>) -> ExprModel {
    if items.len() == 1 {
        items[0]
    } else {
        ExprModel::List(items)
    }
}

/// The template that starts at `i`.
pub open spec fn parse_template(s: Seq<u8>, i: int) -> Parsed
    decreases s.len() - i, 5int,
{
    if !(0 <= i <= s.len()) {
        None
    } else {
        match parse_term(s, i) {
            Some((first, j)) => if i < j <= s.len() {
                parse_more_terms(s, seq![first], j)
            } else {
                None
            },
            None => None,
        }
    }
}

/// The template whose first terms are `items`, with the further terms from `j` on.
pub open spec fn parse_more_terms(s: Seq<u8>, items: Seq<ExprModel>, j: int) -> Parsed
    decreases s.len() - j, 6int,
{
    let k = skip_ws(s, j);
    if 0 <= j < k < s.len() && starts_term(s[k]) {
        match parse_term(s, k) {
            Some((next, end)) => if k < end <= s.len() {
                parse_more_terms(s, items.push(next), end)
            } else {
                None
            },
            None => None,
        }
    } else {
        Some((bundle(items), j))
    }
}

/// The term that starts at `i`.
pub open spec fn parse_term(s: Seq<u8>, i: int) -> Parsed
    decreases s.len() - i, 4int,
{
    if !(0 <= i <= s.len()) {
        None
    } else {
        match parse_primary(s, i) {
            Some((primary, j)) => if i < j <= s.len() {
                parse_chain(s, primary, j)
            } else {
                None
            },
            None => None,
        }
    }
}

/// The term that is `object` with the method calls from `j` on.
pub open spec fn parse_chain(s: Seq<u8>, object: ExprModel, j: int) -> Parsed
    decreases s.len() - j, 1int,
{
    if 0 <= j < s.len() && s[j] == DOT {
        match parse_call(s, j + 1) {
            Some((name, args, end)) => if j < end <= s.len() {
                parse_chain(s, ExprModel::Method { object: Box::new(object), name, args }, end)
            } else {
                None
            },
            None => None,
        }
    } else {
        Some((object, j))
    }
}

/// The primary that starts at `i`.
pub open spec fn parse_primary(s: Seq<u8>, i: int) -> Parsed
    decreases s.len() - i, 3int,
{
    if !(0 <= i < s.len()) {
        None
    } else if s[i] == OPEN {
        let k = skip_ws(s, i + 1);
        if i < k <= s.len() {
            match parse_template(s, k) {
                Some((inner, j)) => {
                    let m = skip_ws(s, j);
                    if 0 <= m < s.len() && s[m] == CLOSE {
                        Some((inner, m + 1))
                    } else {
                        None
                    }
                },
                None => None,
            }
        } else {
            None
        }
    } else if s[i] == QUOTE {
        match literal_rest(s, Seq::empty(), i + 1) {
            Some((decoded, end)) => Some((ExprModel::Literal(decoded), end)),
            None => None,
        }
    } else if is_digit(s[i]) {
        Some((ExprModel::Integer(s.subrange(i, integer_end(s, i))), integer_end(s, i)))
    } else if is_ident_start(s[i]) {
        let end = ident_end(s, i);
        if 0 <= end < s.len() && s[end] == OPEN {
            match parse_call(s, i) {
                Some((name, args, after)) => Some((ExprModel::Function { name, args }, after)),
                None => None,
            }
        } else {
            Some((ExprModel::Identifier(s.subrange(i, end)), end))
        }
    } else {
        None
    }
}

/// The call that starts at `i`: the name, the arguments, and where the call ends.
pub open spec fn parse_call(s: Seq<u8>, i: int) -> Option<(Seq<u8>, Seq<ExprModel>, int)>
    decreases s.len() - i, 2int,
{
    let end = ident_end(s, i);
    if 0 <= i < end < s.len() && is_ident_start(s[i]) && s[end] == OPEN {
        match parse_args(s, end + 1) {
            Some((args, after)) => Some((s.subrange(i, end), args, after)),
            None => None,
        }
    } else {
        None
    }
}

/// The arguments from `i` on, behind the opening parenthesis, and where they end, behind
/// the closing one.
pub open spec fn parse_args(s: Seq<u8>, i: int) -> Option<(Seq<ExprModel>, int)>
    decreases s.len() - i, 7int,
{
    let k = skip_ws(s, i);
    if !(0 <= i <= k < s.len()) {
        None
    } else if s[k] == CLOSE {
        Some((Seq::empty(), k + 1))
    } else {
        match parse_template(s, k) {
            Some((first, j)) => if k < j <= s.len() {
                parse_more_args(s, seq![first], j)
            } else {
                None
            },
            None => None,
        }
    }
}

/// The arguments whose first are `items`, with the further ones from `j` on.
pub open spec fn parse_more_args(s: Seq<u8>, items: Seq<ExprModel>, j: int) -> Option<
    (Seq<ExprModel>, int),
>
    decreases s.len() - j, 8int,
{
    let m = skip_ws(s, j);
    if !(0 <= j <= m < s.len()) {
        None
    } else if s[m] == CLOSE {
        Some((items, m + 1))
    } else if s[m] == COMMA {
        let k = skip_ws(s, m + 1);
        if m < k <= s.len() {
            match parse_template(s, k) {
                Some((next, end)) => if k < end <= s.len() {
                    parse_more_args(s, items.push(next), end)
                } else {
                    None
                },
                None => None,
            }
        } else {
            None
        }
    } else {
        None
    }
}

/// The template that the whole text is: none for a text of white space, a syntax error
/// for a text that is no template.
pub open spec fn parse_program(s: Seq<u8>) -> Option<Option<ExprModel>> {
    let k = skip_ws(s, 0);
    if k == s.len() {
        Some(None)
    } else if 0 <= k < s.len() {
        match parse_template(s, k) {
            Some((template, j)) => if skip_ws(s, j) == s.len() {
                Some(Some(template))
            } else {
                None
            },
            None => None,
        }
    } else {
        None
    }
}

/// The models of a list with one more template are the models of the list with the model
/// of that template.
pub proof fn lemma_models_push(items: Seq<Expr>, next: Expr)
    ensures
        models(items.push(next)) == models(items).push(model(next)),
        models(Seq::<Expr>::empty()) == Seq::<ExprModel>::empty(),
        models(seq![next]) == seq![model(next)],
{
    assert(models(items.push(next)) =~= models(items).push(model(next)));
    assert(models(Seq::<Expr>::empty()) =~= Seq::<ExprModel>::empty());
    assert(models(seq![next]) =~= seq![model(next)]);
}

/// Where the white space from `i` on ends.
pub fn scan_ws(s: &Vec<u8>, i: usize) -> (k: usize)
    requires
        i <= s@.len(),
    ensures
        k == skip_ws(s@, i as int),
        i <= k <= s@.len(),
{
    let mut k = i;
    while k < s.len() && (s[k] == SPACE || s[k] == NEWLINE)
        invariant
            i <= k <= s@.len(),
            skip_ws(s@, i as int) == skip_ws(s@, k as int),
        decreases s@.len() - k,
    {
        k += 1;
    }
    k
}

/// Where the identifier characters from `i` on end.
pub fn scan_identifier(s: &Vec<u8>, i: usize) -> (k: usize)
    requires
        i <= s@.len(),
    ensures
        k == ident_end(s@, i as int),
        i <= k <= s@.len(),
{
    let mut k = i;
    while k < s.len() && ((65 <= s[k] && s[k] <= 90) || (97 <= s[k] && s[k] <= 122) || s[k]
        == UNDERSCORE || (48 <= s[k] && s[k] <= 57))
        invariant
            i <= k <= s@.len(),
            ident_end(s@, i as int) == ident_end(s@, k as int),
        decreases s@.len() - k,
    {
        k += 1;
    }
    k
}

/// Where the integer literal that starts at `i` ends.
pub fn scan_integer(s: &Vec<u8>, i: usize) -> (k: usize)
    requires
        i < s@.len(),
        is_digit(s@[i as int]),
    ensures
        k == integer_end(s@, i as int),
        i < k <= s@.len(),
{
    let len = s.len();
    if s[i] == 48 {
        return i + 1;
    }
    let mut k = i;
    while k < s.len() && 48 <= s[k] && s[k] <= 57
        invariant
            i <= k <= s@.len(),
            digits_end(s@, i as int) == digits_end(s@, k as int),
            k == i ==> is_digit(s@[i as int]),
        decreases s@.len() - k,
    {
        k += 1;
    }
    k
}

/// The bytes from `from` to `to`.
pub fn copy_range(s: &Vec<u8>, from: usize, to: usize) -> (r: Vec<u8>)
    requires
        from <= to <= s@.len(),
    ensures
        r@ == s@.subrange(from as int, to as int),
{
    let mut r: Vec<u8> = Vec::new();
    let mut i = from;
    while i < to
        invariant
            from <= i <= to <= s@.len(),
            r@ == s@.subrange(from as int, i as int),
        decreases to - i,
    {
        r.push(s[i]);
        proof {
            assert(s@.subrange(from as int, i + 1) =~= s@.subrange(from as int, i as int).push(
                s@[i as int],
            ));
        }
        i += 1;
    }
    r
}

/// What the string literal whose opening quote stands before `i` stands for, and where
/// the literal ends.
pub fn read_literal(s: &Vec<u8>, i: usize) -> (r: Option<(Vec<u8>, usize)>)
    requires
        i <= s@.len(),
    ensures
        match r {
            Some((decoded, end)) => literal_rest(s@, Seq::empty(), i as int) == Some(
                (decoded@, end as int),
            ) && i < end <= s@.len(),
            None => literal_rest(s@, Seq::empty(), i as int) is None,
        },
{
    let mut out: Vec<u8> = Vec::new();
    let mut k = i;
    loop
        invariant
            i <= k <= s@.len(),
            literal_rest(s@, Seq::empty(), i as int) == literal_rest(s@, out@, k as int),
        decreases s@.len() - k,
    {
        if k >= s.len() {
            return None;
        }
        let b = s[k];
        if b == QUOTE {
            return Some((out, k + 1));
        }
        if b == BACKSLASH {
            if k + 1 >= s.len() {
                return None;
            }
            let next = s[k + 1];
            if next == LOWER_N {
                out.push(NEWLINE);
            } else if next == QUOTE || next == BACKSLASH {
                out.push(next);
            } else {
                return None;
            }
            k += 2;
        } else {
            out.push(b);
            k += 1;
        }
    }
}

/// The template of one or several terms.
pub fn bundle_terms(items: Vec<Expr>) -> (e: Expr)
    requires
        items@.len() >= 1,
    ensures
        model(e) == bundle(models(items@)),
{
    let mut items = items;
    if items.len() == 1 {
        match items.pop() {
            Some(only) => only,
            None => Expr::List(items),
        }
    } else {
        Expr::List(items)
    }
}

/// The template that starts at `i`.
pub fn read_template(s: &Vec<u8>, i: usize) -> (r: Option<(Expr, usize)>)
    requires
        i <= s@.len(),
    ensures
        match r {
            Some((e, j)) => parse_template(s@, i as int) == Some((model(e), j as int)) && i < j
                <= s@.len(),
            None => parse_template(s@, i as int) is None,
        },
    decreases s@.len() - i, 5int,
{
    let (first, first_end) = match read_term(s, i) {
        Some(found) => found,
        None => {
            return None;
        },
    };
    let mut items: Vec<Expr> = Vec::new();
    items.push(first);
    let mut j = first_end;
    proof {
        lemma_models_push(Seq::empty(), first);
        assert(items@ =~= seq![first]);
    }
    loop
        invariant
            i < j <= s@.len(),
            items@.len() >= 1,
            parse_template(s@, i as int) == parse_more_terms(s@, models(items@), j as int),
        decreases s@.len() - j,
    {
        let k = scan_ws(s, j);
        if !(k > j && k < s.len() && (s[k] == OPEN || s[k] == QUOTE || (48 <= s[k] && s[k] <= 57)
            || (65 <= s[k] && s[k] <= 90) || (97 <= s[k] && s[k] <= 122) || s[k] == UNDERSCORE)) {
            return Some((bundle_terms(items), j));
        }
        match read_term(s, k) {
            Some((next, end)) => {
                proof {
                    lemma_models_push(items@, next);
                }
                items.push(next);
                j = end;
            },
            None => {
                return None;
            },
        }
    }
}

/// The term that starts at `i`.
pub fn read_term(s: &Vec<u8>, i: usize) -> (r: Option<(Expr, usize)>)
    requires
        i <= s@.len(),
    ensures
        match r {
            Some((e, j)) => parse_term(s@, i as int) == Some((model(e), j as int)) && i < j
                <= s@.len(),
            None => parse_term(s@, i as int) is None,
        },
    decreases s@.len() - i, 4int,
{
    let (primary, primary_end) = match read_primary(s, i) {
        Some(found) => found,
        None => {
            return None;
        },
    };
    let mut object = primary;
    let mut j = primary_end;
    loop
        invariant
            i < j <= s@.len(),
            parse_term(s@, i as int) == parse_chain(s@, model(object), j as int),
        decreases s@.len() - j,
    {
        if !(j < s.len() && s[j] == DOT) {
            return Some((object, j));
        }
        match read_call(s, j + 1) {
            Some((name, args, end)) => {
                object = Expr::Method { object: Box::new(object), name, args };
                j = end;
            },
            None => {
                return None;
            },
        }
    }
}

/// The primary that starts at `i`.
pub fn read_primary(s: &Vec<u8>, i: usize) -> (r: Option<(Expr, usize)>)
    requires
        i <= s@.len(),
    ensures
        match r {
            Some((e, j)) => parse_primary(s@, i as int) == Some((model(e), j as int)) && i < j
                <= s@.len(),
            None => parse_primary(s@, i as int) is None,
        },
    decreases s@.len() - i, 3int,
{
    if i >= s.len() {
        return None;
    }
    let b = s[i];
    if b == OPEN {
        let k = scan_ws(s, i + 1);
        match read_template(s, k) {
            Some((inner, j)) => {
                let m = scan_ws(s, j);
                if m < s.len() && s[m] == CLOSE {
                    Some((inner, m + 1))
                } else {
                    None
                }
            },
            None => None,
        }
    } else if b == QUOTE {
        match read_literal(s, i + 1) {
            Some((decoded, end)) => Some((Expr::Literal(decoded), end)),
            None => None,
        }
    } else if 48 <= b && b <= 57 {
        let end = scan_integer(s, i);
        Some((Expr::Integer(copy_range(s, i, end)), end))
    } else if (65 <= b && b <= 90) || (97 <= b && b <= 122) || b == UNDERSCORE {
        let end = scan_identifier(s, i + 1);
        proof {
            assert(ident_end(s@, i as int) == ident_end(s@, i + 1));
        }
        if end < s.len() && s[end] == OPEN {
            match read_call(s, i) {
                Some((name, args, after)) => Some((Expr::Function { name, args }, after)),
                None => None,
            }
        } else {
            Some((Expr::Identifier(copy_range(s, i, end)), end))
        }
    } else {
        None
    }
}

/// The call that starts at `i`: the name, the arguments, and where the call ends.
pub fn read_call(s: &Vec<u8>, i: usize) -> (r: Option<(Vec<u8>, Vec<Expr>, usize)>)
    requires
        i <= s@.len(),
    ensures
        match r {
            Some((name, args, end)) => parse_call(s@, i as int) == Some(
                (name@, models(args@), end as int),
            ) && i < end <= s@.len(),
            None => parse_call(s@, i as int) is None,
        },
    decreases s@.len() - i, 2int,
{
    if i >= s.len() {
        return None;
    }
    let b = s[i];
    if !((65 <= b && b <= 90) || (97 <= b && b <= 122) || b == UNDERSCORE) {
        return None;
    }
    let end = scan_identifier(s, i + 1);
    proof {
        assert(ident_end(s@, i as int) == ident_end(s@, i + 1));
    }
    if !(end < s.len() && s[end] == OPEN) {
        return None;
    }
    match read_args(s, end + 1) {
        Some((args, after)) => Some((copy_range(s, i, end), args, after)),
        None => None,
    }
}

/// The arguments from `i` on, behind the opening parenthesis, and where they end, behind
/// the closing one.
pub fn read_args(s: &Vec<u8>, i: usize) -> (r: Option<(Vec<Expr>, usize)>)
    requires
        i <= s@.len(),
    ensures
        match r {
            Some((args, end)) => parse_args(s@, i as int) == Some((models(args@), end as int))
                && i < end <= s@.len(),
            None => parse_args(s@, i as int) is None,
        },
    decreases s@.len() - i, 7int,
{
    let k = scan_ws(s, i);
    if k >= s.len() {
        return None;
    }
    let mut items: Vec<Expr> = Vec::new();
    if s[k] == CLOSE {
        proof {
            assert(models(items@) =~= Seq::<ExprModel>::empty());
        }
        return Some((items, k + 1));
    }
    let (first, first_end) = match read_template(s, k) {
        Some(found) => found,
        None => {
            return None;
        },
    };
    items.push(first);
    let mut j = first_end;
    proof {
        lemma_models_push(Seq::empty(), first);
        assert(items@ =~= seq![first]);
    }
    loop
        invariant
            i < j <= s@.len(),
            parse_args(s@, i as int) == parse_more_args(s@, models(items@), j as int),
        decreases s@.len() - j,
    {
        let m = scan_ws(s, j);
        if m >= s.len() {
            return None;
        }
        if s[m] == CLOSE {
            return Some((items, m + 1));
        }
        if s[m] != COMMA {
            return None;
        }
        let k = scan_ws(s, m + 1);
        match read_template(s, k) {
            Some((next, end)) => {
                proof {
                    lemma_models_push(items@, next);
                }
                items.push(next);
                j = end;
            },
            None => {
                return None;
            },
        }
    }
}

/// The template that the whole text is: none for a text of white space; nothing for a
/// text that is no template.
pub fn read_program(s: &Vec<u8>) -> (r: Option<Option<Expr>>)
    ensures
        match r {
            Some(Some(e)) => parse_program(s@) == Some(Some(model(e))),
            Some(None) => parse_program(s@) == Some(None::<ExprModel>),
            None => parse_program(s@) is None,
        },
{
    let k = scan_ws(s, 0);
    if k == s.len() {
        return Some(None);
    }
    match read_template(s, k) {
        Some((template, j)) => {
            if scan_ws(s, j) == s.len() {
                Some(Some(template))
            } else {
                None
            }
        },
        None => None,
    }
}

} // verus!
