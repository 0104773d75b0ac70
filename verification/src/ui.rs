//! What the user interface decides: how output is coloured and paged, what a prompt
//! accepts, how wide the terminal is taken to be. Reading and writing the terminal is left
//! to the program around the library.

use vstd::prelude::*;
use vstd::string::*;

verus! {

/// The name under which the pager that is built in is configured.
pub const BUILTIN_PAGER_NAME: &'static str = ":builtin";

/// The width assumed for a terminal of unknown width.
pub const DEFAULT_TERM_WIDTH: u16 = 80;

/// When output is coloured.
#[derive(Clone, Copy, Debug, PartialEq, Eq, Structural)]
pub enum ColorChoice {
    Always,
    Never,
    Debug,
    Auto,
}

impl ColorChoice {
    /// The name of the choice, as it is configured and shown.
    pub open spec fn name(self) -> Seq<char> {
        match self {
            ColorChoice::Always => "always"@,
            ColorChoice::Never => "never"@,
            ColorChoice::Debug => "debug"@,
            ColorChoice::Auto => "auto"@,
        }
    }

    /// The name of the choice, as it is configured and shown.
    pub fn as_str(&self) -> (s: &'static str)
        ensures
            s@ == self.name(),
    {
        match self {
            ColorChoice::Always => "always",
            ColorChoice::Never => "never",
            ColorChoice::Debug => "debug",
            ColorChoice::Auto => "auto",
        }
    }

    /// The choice with the given name.
    pub fn from_name(name: &str) -> (r: Option<ColorChoice>)
        ensures
            match r {
                Some(choice) => choice.name() == name@,
                None => forall|choice: ColorChoice| choice.name() != name@,
            },
    {
        let owned = name.to_owned();
        if owned == "always".to_owned() {
            Some(ColorChoice::Always)
        } else if owned == "never".to_owned() {
            Some(ColorChoice::Never)
        } else if owned == "debug".to_owned() {
            Some(ColorChoice::Debug)
        } else if owned == "auto".to_owned() {
            Some(ColorChoice::Auto)
        } else {
            None
        }
    }
}

/// How output is formatted.
#[derive(Clone, Copy, Debug, PartialEq, Eq, Structural)]
pub enum FormatterKind {
    /// With colours; in debug mode the labels are shown as well.
    Color { debug: bool },
    /// Without colours, and with escape codes in the text made harmless.
    Sanitized,
    /// As plain text.
    PlainText,
}

/// How output is formatted under the choice, on a terminal or not.
pub open spec fn spec_formatter_kind(choice: ColorChoice, terminal: bool) -> FormatterKind {
    let color = match choice {
        ColorChoice::Always => true,
        ColorChoice::Never => false,
        ColorChoice::Debug => true,
        ColorChoice::Auto => terminal,
    };
    if color {
        FormatterKind::Color { debug: choice == ColorChoice::Debug }
    } else if terminal {
        FormatterKind::Sanitized
    } else {
        FormatterKind::PlainText
    }
}

/// How output is formatted under the choice, on a terminal or not.
pub fn formatter_kind(choice: ColorChoice, terminal: bool) -> (kind: FormatterKind)
    ensures
        kind == spec_formatter_kind(choice, terminal),
{
    let (color, debug) = match choice {
        ColorChoice::Always => (true, false),
        ColorChoice::Never => (false, false),
        ColorChoice::Debug => (true, true),
        ColorChoice::Auto => (terminal, false),
    };
    if color {
        FormatterKind::Color { debug }
    } else if terminal {
        FormatterKind::Sanitized
    } else {
        FormatterKind::PlainText
    }
}

/// Whether output is paged.
#[derive(Clone, Copy, Debug, PartialEq, Eq, Structural)]
pub enum PaginationChoice {
    Never,
    Auto,
}

/// What the built-in pager does with the screen.
#[derive(Clone, Copy, Debug, PartialEq, Eq, Structural)]
pub enum StreampagerAlternateScreenMode {
    QuitIfOnePage,
    FullScreenClearOutput,
    QuitQuicklyOrClearOutput,
}

/// Where the built-in pager wraps lines.
#[derive(Clone, Copy, Debug, PartialEq, Eq, Structural)]
pub enum StreampagerWrappingMode {
    Off,
    Word,
    Anywhere,
}

/// The wrapping of lines as the pager knows it.
#[derive(Clone, Copy, Debug, PartialEq, Eq, Structural)]
pub enum WrappingMode {
    Unwrapped,
    WordBoundary,
    GraphemeBoundary,
}

/// The interface of the pager as the pager knows it.
#[derive(Clone, Copy, Debug, PartialEq, Eq, Structural)]
pub enum InterfaceMode {
    FullScreen,
    Hybrid,
    /// Full screen after a delay of so many seconds.
    Delayed { seconds: u64 },
}

/// The wrapping that the pager is started with.
pub fn wrapping_mode(mode: StreampagerWrappingMode) -> (r: WrappingMode)
    ensures
        r == match mode {
            StreampagerWrappingMode::Off => WrappingMode::Unwrapped,
            StreampagerWrappingMode::Word => WrappingMode::WordBoundary,
            StreampagerWrappingMode::Anywhere => WrappingMode::GraphemeBoundary,
        },
{
    match mode {
        StreampagerWrappingMode::Off => WrappingMode::Unwrapped,
        StreampagerWrappingMode::Word => WrappingMode::WordBoundary,
        StreampagerWrappingMode::Anywhere => WrappingMode::GraphemeBoundary,
    }
}

/// The configuration of the built-in pager.
#[derive(Clone, Copy, Debug, PartialEq, Eq, Structural)]
pub struct StreampagerConfig {
    pub interface: StreampagerAlternateScreenMode,
    pub wrapping: StreampagerWrappingMode,
}

impl StreampagerConfig {
    /// The interface that the pager is started with.
    pub fn streampager_interface_mode(&self) -> (r: InterfaceMode)
        ensures
            r == match self.interface {
                StreampagerAlternateScreenMode::FullScreenClearOutput => InterfaceMode::FullScreen,
                StreampagerAlternateScreenMode::QuitIfOnePage => InterfaceMode::Hybrid,
                StreampagerAlternateScreenMode::QuitQuicklyOrClearOutput => InterfaceMode::Delayed {
                    seconds: 2,
                },
            },
    {
        match self.interface {
            StreampagerAlternateScreenMode::FullScreenClearOutput => InterfaceMode::FullScreen,
            StreampagerAlternateScreenMode::QuitIfOnePage => InterfaceMode::Hybrid,
            StreampagerAlternateScreenMode::QuitQuicklyOrClearOutput => InterfaceMode::Delayed {
                seconds: 2,
            },
        }
    }
}

/// Which pager is used, if any.
#[derive(Clone, Copy, Debug, PartialEq, Eq, Structural)]
pub enum PagerConfig {
    Disabled,
    Builtin(StreampagerConfig),
    /// The command configured as the pager.
    External,
}

/// Which pager is used: none if paging is off, the built-in one if the configured pager is
/// the plain name `:builtin`, else the configured command.
pub fn pager_config(
    paginate: PaginationChoice,
    pager_name: Option<&str>,
    streampager: StreampagerConfig,
) -> (r: PagerConfig)
    ensures
        r == (if paginate == PaginationChoice::Never {
            PagerConfig::Disabled
        } else if pager_name matches Some(name) && name@ == BUILTIN_PAGER_NAME@ {
            PagerConfig::Builtin(streampager)
        } else {
            PagerConfig::External
        }),
{
    match paginate {
        PaginationChoice::Never => {
            return PagerConfig::Disabled;
        },
        PaginationChoice::Auto => {},
    }
    match pager_name {
        Some(name) => {
            if name.to_owned() == BUILTIN_PAGER_NAME.to_owned() {
                PagerConfig::Builtin(streampager)
            } else {
                PagerConfig::External
            }
        },
        None => PagerConfig::External,
    }
}

/// Where output goes.
#[derive(Clone, Copy, Debug, PartialEq, Eq, Structural)]
pub enum OutputKind {
    Terminal,
    Paged,
    BuiltinPaged,
    Null,
}

/// What to do when a pager is asked for.
#[derive(Clone, Copy, Debug, PartialEq, Eq, Structural)]
pub enum PagerRequest {
    /// Leave the output as it is.
    Keep,
    /// Start the built-in pager.
    StartBuiltin(StreampagerConfig),
    /// Start the configured command.
    StartExternal,
}

/// What to do when a pager is asked for: a pager is started only if output goes to a
/// terminal that is one, and a pager is configured.
pub fn pager_request(output: OutputKind, stdout_is_terminal: bool, pager: PagerConfig) -> (r:
    PagerRequest)
    ensures
        r == (if output == OutputKind::Terminal && stdout_is_terminal {
            match pager {
                PagerConfig::Disabled => PagerRequest::Keep,
                PagerConfig::Builtin(config) => PagerRequest::StartBuiltin(config),
                PagerConfig::External => PagerRequest::StartExternal,
            }
        } else {
            PagerRequest::Keep
        }),
{
    match output {
        OutputKind::Terminal => {
            if !stdout_is_terminal {
                return PagerRequest::Keep;
            }
        },
        _ => {
            return PagerRequest::Keep;
        },
    }
    match pager {
        PagerConfig::Disabled => PagerRequest::Keep,
        PagerConfig::Builtin(config) => PagerRequest::StartBuiltin(config),
        PagerConfig::External => PagerRequest::StartExternal,
    }
}

/// Whether progress is shown: only on a terminal that is one, and if it is switched on.
pub fn use_progress_indicator(output: OutputKind, enabled: bool, stderr_is_terminal: bool) -> (r:
    bool)
    ensures
        r == (output == OutputKind::Terminal && enabled && stderr_is_terminal),
{
    match output {
        OutputKind::Terminal => enabled && stderr_is_terminal,
        _ => false,
    }
}

/// Whether the user can be asked: on a terminal, or where the environment says `1`.
pub fn can_prompt(stderr_is_terminal: bool, interactive: Option<&str>) -> (r: bool)
    ensures
        r == (stderr_is_terminal || (interactive matches Some(value) && value@ == "1"@)),
{
    if stderr_is_terminal {
        return true;
    }
    match interactive {
        Some(value) => value.to_owned() == "1".to_owned(),
        None => false,
    }
}

/// Why a prompt gave no answer.
#[derive(Clone, Copy, Debug, PartialEq, Eq, Structural)]
pub enum PromptError {
    /// The output is not connected to a terminal.
    Unsupported,
    /// The input ended before an answer.
    UnexpectedEof,
}

/// The answer in a line that was read: the line without the newline at its end.
pub open spec fn spec_answer(line: Seq<char>) -> Seq<char> {
    if line.len() > 0 && line.last() == '\n' {
        line.drop_last()
    } else {
        line
    }
}

/// The answer in a line that was read; an empty line means that the input has ended.
pub fn finish_prompt_line(line: &str) -> (r: Result<String, PromptError>)
    ensures
        match r {
            Ok(answer) => line@.len() > 0 && answer@ == spec_answer(line@),
            Err(e) => line@.len() == 0 && e == PromptError::UnexpectedEof,
        },
{
    let len = line.unicode_len();
    if len == 0 {
        return Err(PromptError::UnexpectedEof);
    }
    if line.get_char(len - 1) == '\n' {
        let answer = line.substring_char(0, len - 1).to_owned();
        proof {
            assert(line@.subrange(0, len - 1) =~= line@.drop_last());
        }
        Ok(answer)
    } else {
        Ok(line.to_owned())
    }
}

/// What became of an answer to a prompt with choices.
#[derive(Debug)]
pub enum ChoiceOutcome {
    /// The answer is taken.
    Accepted(String),
    /// The answer is none of the choices: ask again.
    Unrecognized,
}

/// Whether the list holds the text.
pub fn holds_text(list: &Vec<String>, text: &str) -> (b: bool)
    ensures
        b == exists|i: int| 0 <= i < list@.len() && (#[trigger] list@[i])@ == text@,
{
    let owned = text.to_owned();
    let mut i: usize = 0;
    while i < list.len()
        invariant
            i <= list@.len(),
            owned@ == text@,
            forall|j: int| 0 <= j < i ==> (#[trigger] list@[j])@ != text@,
        decreases list@.len() - i,
    {
        if list[i] == owned {
            return true;
        }
        i += 1;
    }
    false
}

/// What becomes of an answer: an empty answer stands for the default, if there is one;
/// any other answer has to be one of the choices.
pub fn check_choice(choice: &str, choices: &Vec<String>, default: Option<&str>) -> (r:
    ChoiceOutcome)
    ensures
        match r {
            ChoiceOutcome::Accepted(answer) => if choice@.len() == 0 && default is Some {
                answer@ == default->0@
            } else {
                answer@ == choice@ && exists|i: int|
                    0 <= i < choices@.len() && (#[trigger] choices@[i])@ == choice@
            },
            ChoiceOutcome::Unrecognized => !(choice@.len() == 0 && default is Some) && !exists|
                i: int,
            |
                0 <= i < choices@.len() && (#[trigger] choices@[i])@ == choice@,
        },
{
    if choice.is_empty() {
        match default {
            Some(default) => {
                return ChoiceOutcome::Accepted(default.to_owned());
            },
            None => {},
        }
    }
    if holds_text(choices, choice) {
        ChoiceOutcome::Accepted(choice.to_owned())
    } else {
        ChoiceOutcome::Unrecognized
    }
}

/// What is shown behind a question that wants yes or no, with the default in capitals.
pub fn yes_no_hint(default: Option<bool>) -> (s: &'static str)
    ensures
        s@ == match default {
            Some(true) => "(Yn)"@,
            Some(false) => "(yN)"@,
            None => "(yn)"@,
        },
{
    match default {
        Some(true) => "(Yn)",
        Some(false) => "(yN)",
        None => "(yn)",
    }
}

/// The answer that an empty answer stands for.
pub fn yes_no_default_choice(default: Option<bool>) -> (r: Option<&'static str>)
    ensures
        match default {
            Some(true) => r matches Some(s) && s@ == "Y"@,
            Some(false) => r matches Some(s) && s@ == "N"@,
            None => r is None,
        },
{
    match default {
        Some(true) => Some("Y"),
        Some(false) => Some("N"),
        None => None,
    }
}

/// Whether an answer means yes: it starts with `y` or `Y`.
pub fn is_yes(choice: &str) -> (b: bool)
    ensures
        b == (choice@.len() > 0 && (choice@[0] == 'y' || choice@[0] == 'Y')),
{
    if choice.unicode_len() == 0 {
        return false;
    }
    let first = choice.get_char(0);
    first == 'y' || first == 'Y'
}

/// Whether the character is a decimal digit.
pub open spec fn is_digit(c: char) -> bool {
    48 <= c as u32 <= 57
}

/// The number that a string of decimal digits stands for.
pub open spec fn digits_value(s: Seq<char>) -> nat
    decreases s.len(),
{
    if s.len() == 0 {
        0
    } else {
        digits_value(s.drop_last()) * 10 + (s.last() as u32 - 48) as nat
    }
}

/// The width that a text stands for: an optional `+`, then decimal digits that make a
/// number of at most 65535.
pub open spec fn spec_parse_columns(text: Seq<char>) -> Option<u16> {
    let digits = unsigned(text);
    if digits.len() == 0 || !all_digits(digits) || digits_value(digits) > u16::MAX {
        None
    } else {
        Some(digits_value(digits) as u16)
    }
}

/// The text without a `+` in front.
pub open spec fn unsigned(text: Seq<char>) -> Seq<char> {
    if text.len() > 0 && text[0] == '+' {
        text.drop_first()
    } else {
        text
    }
}

/// Whether every character is a decimal digit.
pub open spec fn all_digits(s: Seq<char>) -> bool {
    forall|i: int| 0 <= i < s.len() ==> is_digit(#[trigger] s[i])
}

/// The value of digits does not shrink when more digits follow.
pub proof fn lemma_digits_grow(s: Seq<char>, n: int)
    requires
        0 <= n <= s.len(),
        forall|i: int| 0 <= i < s.len() ==> is_digit(#[trigger] s[i]),
    ensures
        digits_value(s.take(n)) <= digits_value(s),
    decreases s.len() - n,
{
    if n < s.len() {
        assert(s.take(n + 1).drop_last() =~= s.take(n));
        assert(is_digit(s[n]));
        lemma_digits_grow(s, n + 1);
    } else {
        assert(s.take(n) =~= s);
    }
}

/// The width that a text stands for, if it stands for one.
pub fn parse_columns(text: &str) -> (r: Option<u16>)
    ensures
        r == spec_parse_columns(text@),
{
    let len = text.unicode_len();
    let start: usize = if len > 0 && text.get_char(0) == '+' {
        1
    } else {
        0
    };
    let ghost digits = unsigned(text@);
    if start == len {
        return None;
    }
    let mut value: u32 = 0;
    let mut i: usize = start;
    proof {
        assert(digits.take(0) =~= Seq::<char>::empty());
    }
    while i < len
        invariant
            start <= i <= len,
            len == text@.len(),
            digits == unsigned(text@),
            digits.len() > 0,
            start == text@.len() - digits.len(),
            forall|j: int| 0 <= j < digits.len() ==> digits[j] == text@[j + start],
            forall|j: int| 0 <= j < i - start ==> is_digit(#[trigger] digits[j]),
            value == digits_value(digits.take(i - start)),
            value <= u16::MAX,
        decreases len - i,
    {
        let c = text.get_char(i);
        proof {
            assert(digits[i - start] == c);
            assert(digits.take(i - start + 1).drop_last() =~= digits.take(i - start));
        }
        let code = c as u32;
        if code < 48 || code > 57 {
            proof {
                assert(!is_digit(digits[i - start]));
                assert(!all_digits(digits));
            }
            return None;
        }
        let digit = code - 48;
        let next = value * 10 + digit;
        if next > 65535 {
            proof {
                assert(digits_value(digits.take(i - start + 1)) == next);
                if all_digits(digits) {
                    lemma_digits_grow(digits, i - start + 1);
                }
            }
            return None;
        }
        value = next;
        i += 1;
    }
    proof {
        assert(digits.take(digits.len() as int) =~= digits);
        assert(all_digits(digits));
    }
    Some(value as u16)
}

/// The width of the terminal: what the environment says, else what the terminal says.
pub fn resolve_term_width(columns: Option<&str>, detected: Option<u16>) -> (r: Option<u16>)
    ensures
        r == match columns {
            Some(text) => match spec_parse_columns(text@) {
                Some(width) => Some(width),
                None => detected,
            },
            None => detected,
        },
{
    match columns {
        Some(text) => match parse_columns(text) {
            Some(width) => Some(width),
            None => detected,
        },
        None => detected,
    }
}

/// The width to lay output out for: the width of the terminal, or 80 where it is unknown.
pub fn term_width_or_default(width: Option<u16>) -> (r: usize)
    ensures
        r == match width {
            Some(w) => w as usize,
            None => 80usize,
        },
{
    match width {
        Some(w) => w as usize,
        None => DEFAULT_TERM_WIDTH as usize,
    }
}

/// Where progress is written, and how wide the terminal is taken to be.
#[derive(Debug)]
pub struct ProgressOutput<W> {
    output: W,
    term_width: Option<u16>,
}

impl<W> ProgressOutput<W> {
    /// The width that was fixed when the value was made, if one was.
    pub closed spec fn fixed_width(&self) -> Option<u16> {
        self.term_width
    }

    /// What progress is written to.
    pub closed spec fn target(&self) -> W {
        self.output
    }

    /// Progress output of a fixed width.
    pub fn for_test(output: W, term_width: u16) -> (r: Self)
        ensures
            r.fixed_width() == Some(term_width),
            r.target() == output,
    {
        ProgressOutput { output, term_width: Some(term_width) }
    }

    /// Progress output whose width is that of the terminal at the time of asking.
    pub fn for_output(output: W) -> (r: Self)
        ensures
            r.fixed_width() is None,
            r.target() == output,
    {
        ProgressOutput { output, term_width: None }
    }

    /// The width of the terminal: the fixed one, else the one detected now.
    pub fn term_width(&self, detected: Option<u16>) -> (r: Option<u16>)
        ensures
            r == match self.fixed_width() {
                Some(width) => Some(width),
                None => detected,
            },
    {
        match self.term_width {
            Some(width) => Some(width),
            None => detected,
        }
    }

    /// Where progress is written.
    pub fn output(&self) -> (r: &W)
        ensures
            *r == self.target(),
    {
        &self.output
    }

    /// Where progress is written, to be written to.
    pub fn output_mut(&mut self) -> (output: &mut W)
        ensures
            *output == old(self).target(),
            final(self).target() == *final(output),
            final(self).fixed_width() == old(self).fixed_width(),
    {
        &mut self.output
    }

    /// Gives up the value for what it writes to.
    pub fn into_output(self) -> (r: W)
        ensures
            r == self.target(),
    {
        self.output
    }
}

/// The texts of the list in one text, with the separator between each two.
pub open spec fn joined(parts: Seq<Seq<char>>, separator: Seq<char>) -> Seq<char>
    decreases parts.len(),
{
    if parts.len() == 0 {
        Seq::empty()
    } else if parts.len() == 1 {
        parts[0]
    } else {
        joined(parts.drop_last(), separator) + separator + parts.last()
    }
}

/// The views of a list of strings.
pub open spec fn texts(list: Seq<String>) -> Seq<Seq<char>> {
    Seq::new(list.len(), |i: int| list[i]@)
}

/// Writes out, once, what `itertools::Itertools::format` makes of the strings of the list.
/// The result is the first string followed, for each further string, by the separator and
/// that string; it is empty for an empty list.
#[verifier::external_body]
fn join_texts(parts: &Vec<String>, separator: &str) -> (r: String)
    ensures
        r@ == joined(texts(parts@), separator@),
{
    itertools::Itertools::format(parts.iter(), separator).to_string()
}

/// The message of an error followed by the messages of its sources, the outermost first,
/// each two separated by a colon and a space.
pub fn format_error_with_sources(messages: &Vec<String>) -> (r: String)
    ensures
        r@ == joined(texts(messages@), ": "@),
{
    join_texts(messages, ": ")
}

} // verus!
