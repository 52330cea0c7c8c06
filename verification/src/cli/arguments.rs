//! The arguments of the command line tool.

use crate::hybrid_markdown::document::ProcessMode;
use crate::lines::{separate, separated, texts};
use crate::numbers::{decimal, natural_of, parse_natural, push_decimal};
use crate::text::{characters, part, push_chars, push_text, same_text, strings, text_of, trim_chars, trimmed};
use crate::vision::ocr::OcrMode;
use crate::vision::routing::{ascending, insert_page};
use vstd::prelude::*;

verus! {

/// The argument stands among the arguments.
pub open spec fn is_given(args: Seq<Seq<char>>, name: Seq<char>) -> bool {
    args.contains(name)
}

/// What stands for the value of an option.
pub enum ArgumentView {
    /// The option is not given.
    Absent,
    /// The option is given as the last argument.
    Missing,
    /// The argument after the first occurrence of the option.
    Given(Seq<char>),
}

/// The value of an option, from the argument `i` on.
pub open spec fn value_from(args: Seq<Seq<char>>, name: Seq<char>, i: int) -> ArgumentView
    decreases args.len() - i,
{
    if i < 0 || i >= args.len() {
        ArgumentView::Absent
    } else if args[i] == name {
        if i + 1 < args.len() {
            ArgumentView::Given(args[i + 1])
        } else {
            ArgumentView::Missing
        }
    } else {
        value_from(args, name, i + 1)
    }
}

/// The value of an option.
pub open spec fn value_of(args: Seq<Seq<char>>, name: Seq<char>) -> ArgumentView {
    value_from(args, name, 0)
}

/// Whether an argument is given.
pub fn has_flag(args: &Vec<String>, name: &str) -> (r: bool)
    ensures
        r == is_given(strings(args@), name@),
{
    let ghost model = strings(args@);
    let mut i: usize = 0;
    while i < args.len()
        invariant
            i <= args@.len(),
            model == strings(args@),
            forall|k: int| 0 <= k < i ==> model[k] != name@,
        decreases args@.len() - i,
    {
        assert(model[i as int] == args@[i as int]@);
        if same_text(args[i].as_str(), name) {
            assert(model[i as int] == name@);
            return true;
        }
        i += 1;
    }
    false
}

/// The value of an option; a message if it is given without one.
pub fn argument_value<'a>(args: &'a Vec<String>, name: &str) -> (r: Result<Option<&'a String>, String>)
    ensures
        match value_of(strings(args@), name@) {
            ArgumentView::Absent => r == Ok::<Option<&String>, String>(None),
            ArgumentView::Missing => r matches Err(message) && message@ == name@ + " requires a value"@,
            ArgumentView::Given(value) => r matches Ok(Some(text)) && text@ == value,
        },
{
    let ghost model = strings(args@);
    let mut i: usize = 0;
    while i < args.len()
        invariant
            i <= args@.len(),
            model == strings(args@),
            value_of(model, name@) == value_from(model, name@, i as int),
        decreases args@.len() - i,
    {
        assert(model[i as int] == args@[i as int]@);
        if same_text(args[i].as_str(), name) {
            if i + 1 < args.len() {
                assert(model[i + 1] == args@[i + 1]@);
                return Ok(Some(&args[i + 1]));
            }
            let mut out = characters(name);
            push_text(&mut out, " requires a value");
            return Err(text_of(&out));
        }
        i += 1;
    }
    Ok(None)
}

/// A text between quotation marks, as the debug format of the standard
/// library writes it.
pub uninterp spec fn debug_text(s: Seq<char>) -> Seq<char>;

/// The debug format of the standard library for texts, through `format!`.
#[verifier::external_body]
fn debug_format(s: &str) -> (r: String)
    ensures
        r@ == debug_text(s@),
{
    format!("{:?}", s)
}

/// The message for an option whose value is no number.
pub fn number_error(name: &str, value: &str) -> (r: String)
    ensures
        r@ == name@ + " requires a number, got "@ + debug_text(value@),
{
    let mut out = characters(name);
    push_text(&mut out, " requires a number, got ");
    push_text(&mut out, debug_format(value).as_str());
    text_of(&out)
}

/// The first place of a character, from `i` on.
pub open spec fn first_place(s: Seq<char>, c: char, i: int) -> Option<int>
    decreases s.len() - i,
{
    if i < 0 || i >= s.len() {
        None
    } else if s[i] == c {
        Some(i)
    } else {
        first_place(s, c, i + 1)
    }
}

/// What one part of a page specification says.
pub enum PartView {
    /// The pages from the first to the last.
    Pages { first: u32, last: u32 },
    /// It is not valid.
    Fault { message: Seq<char> },
}

/// One part of a page specification: a page, or a range of pages.
pub open spec fn part_of(text: Seq<char>) -> PartView {
    let t = trimmed(text);
    match first_place(t, '-', 0) {
        Some(k) => {
            let from = trimmed(t.take(k));
            let to = trimmed(t.skip(k + 1));
            match (natural_of(from), natural_of(to)) {
                (None, _) => PartView::Fault { message: "invalid page number: "@ + from },
                (_, None) => PartView::Fault { message: "invalid page number: "@ + to },
                (Some(first), Some(last)) => if first == 0 || last == 0 {
                    PartView::Fault { message: "page numbers are 1-indexed"@ }
                } else if first > last {
                    PartView::Fault { message: "invalid range: "@ + decimal(first) + "-"@ + decimal(last) }
                } else {
                    PartView::Pages { first: first as u32, last: last as u32 }
                },
            }
        },
        None => match natural_of(t) {
            None => PartView::Fault { message: "invalid page number: "@ + t },
            Some(page) => if page == 0 {
                PartView::Fault { message: "page numbers are 1-indexed"@ }
            } else {
                PartView::Pages { first: page as u32, last: page as u32 }
            },
        },
    }
}

/// The message for the first part of the first `n` that is not valid.
pub open spec fn first_part_fault(parts: Seq<Seq<char>>, n: nat) -> Option<Seq<char>>
    decreases n,
{
    if n == 0 {
        None
    } else {
        match first_part_fault(parts, (n - 1) as nat) {
            Some(message) => Some(message),
            None => match part_of(parts[n - 1]) {
                PartView::Fault { message } => Some(message),
                PartView::Pages { .. } => None,
            },
        }
    }
}

/// The page belongs to a part.
pub open spec fn in_part(part: PartView, page: u32) -> bool {
    match part {
        PartView::Pages { first, last } => first <= page <= last,
        PartView::Fault { .. } => false,
    }
}

/// The page belongs to one of the first `n` parts.
pub open spec fn in_parts(parts: Seq<Seq<char>>, n: nat, page: u32) -> bool
    decreases n,
{
    n > 0 && (in_parts(parts, (n - 1) as nat, page) || in_part(part_of(parts[n - 1]), page))
}

/// What is wrong with a page specification.
pub open spec fn page_spec_fault(spec: Seq<char>) -> Option<Seq<char>> {
    first_part_fault(separated(spec, ','), separated(spec, ',').len())
}

/// The page is in a page specification such as `1,3,5-10,20`.
pub open spec fn in_page_spec(spec: Seq<char>, page: u32) -> bool {
    in_parts(separated(spec, ','), separated(spec, ',').len(), page)
}

fn find_char(s: &Vec<char>, c: char) -> (r: Option<usize>)
    ensures
        match r {
            Some(k) => k < s@.len() && first_place(s@, c, 0) == Some(k as int),
            None => first_place(s@, c, 0) is None,
        },
{
    let mut i: usize = 0;
    while i < s.len()
        invariant
            i <= s@.len(),
            first_place(s@, c, 0) == first_place(s@, c, i as int),
        decreases s@.len() - i,
    {
        if s[i] == c {
            return Some(i);
        }
        i += 1;
    }
    None
}

fn invalid_page(text: &Vec<char>) -> (r: Vec<char>)
    ensures
        r@ == "invalid page number: "@ + text@,
{
    let mut out = characters("invalid page number: ");
    push_chars(&mut out, text);
    out
}

fn parse_part(text: &Vec<char>) -> (r: Result<(u32, u32), Vec<char>>)
    ensures
        match r {
            Ok((first, last)) => part_of(text@) == (PartView::Pages { first, last }) && 1 <= first <= last,
            Err(message) => part_of(text@) == (PartView::Fault { message: message@ }),
        },
{
    let t = trim_chars(text);
    match find_char(&t, '-') {
        Some(k) => {
            let from = trim_chars(&part(&t, 0, k));
            let to = trim_chars(&part(&t, k + 1, t.len()));
            proof {
                assert(t@.subrange(0, k as int) =~= t@.take(k as int));
                assert(t@.subrange(k + 1, t@.len() as int) =~= t@.skip(k + 1));
            }
            let first = match parse_natural(&from) {
                Some(first) => first,
                None => {
                    return Err(invalid_page(&from));
                },
            };
            let last = match parse_natural(&to) {
                Some(last) => last,
                None => {
                    return Err(invalid_page(&to));
                },
            };
            if first == 0 || last == 0 {
                return Err(characters("page numbers are 1-indexed"));
            }
            if first > last {
                let mut out = characters("invalid range: ");
                push_decimal(&mut out, first as u128);
                push_text(&mut out, "-");
                push_decimal(&mut out, last as u128);
                return Err(out);
            }
            Ok((first, last))
        },
        None => {
            let page = match parse_natural(&t) {
                Some(page) => page,
                None => {
                    return Err(invalid_page(&t));
                },
            };
            if page == 0 {
                return Err(characters("page numbers are 1-indexed"));
            }
            Ok((page, page))
        },
    }
}

fn insert_range(pages: &mut Vec<u32>, first: u32, last: u32)
    requires
        ascending(old(pages)@),
        first <= last,
    ensures
        ascending(final(pages)@),
        forall|p: u32| #[trigger]
            final(pages)@.contains(p) <==> old(pages)@.contains(p) || first <= p <= last,
{
    let ghost start = pages@;
    let mut next: u64 = first as u64;
    while next <= last as u64
        invariant
            first <= next <= last + 1,
            ascending(pages@),
            forall|p: u32| #[trigger] pages@.contains(p) <==> start.contains(p) || first <= p < next,
        decreases last + 1 - next,
    {
        let ghost before = pages@;
        insert_page(pages, next as u32);
        assert forall|p: u32| #[trigger] pages@.contains(p) <==> start.contains(p) || first <= p < next + 1 by {
            assert(before.contains(p) <==> start.contains(p) || first <= p < next);
        }
        next += 1;
    }
}

proof fn lemma_part_fault_stays(parts: Seq<Seq<char>>, n: nat, m: nat)
    requires
        n <= m,
        first_part_fault(parts, n) is Some,
    ensures
        first_part_fault(parts, m) == first_part_fault(parts, n),
    decreases m,
{
    if n < m {
        lemma_part_fault_stays(parts, n, (m - 1) as nat);
    }
}

/// Parses a page specification like `1,3,5-10,20` into page numbers, in
/// ascending order and each once.
pub fn parse_page_spec(spec: &str) -> (r: Result<Vec<u32>, String>)
    ensures
        match r {
            Ok(pages) => {
                &&& page_spec_fault(spec@) is None
                &&& ascending(pages@)
                &&& forall|p: u32| #[trigger] pages@.contains(p) <==> in_page_spec(spec@, p)
            },
            Err(message) => page_spec_fault(spec@) == Some(message@),
        },
{
    let chars = characters(spec);
    let parts = separate(&chars, ',');
    let ghost model = texts(parts@);
    let mut pages: Vec<u32> = Vec::new();
    let mut i: usize = 0;
    while i < parts.len()
        invariant
            i <= parts@.len(),
            model == texts(parts@),
            model == separated(spec@, ','),
            first_part_fault(model, i as nat) is None,
            ascending(pages@),
            forall|p: u32| #[trigger] pages@.contains(p) <==> in_parts(model, i as nat, p),
        decreases parts@.len() - i,
    {
        assert(model[i as int] == parts@[i as int]@);
        match parse_part(&parts[i]) {
            Ok((first, last)) => {
                let ghost before = pages@;
                insert_range(&mut pages, first, last);
                assert forall|p: u32| #[trigger] pages@.contains(p) <==> in_parts(model, (i + 1) as nat, p) by {
                    assert(before.contains(p) <==> in_parts(model, i as nat, p));
                }
            },
            Err(message) => {
                proof {
                    lemma_part_fault_stays(model, (i + 1) as nat, model.len());
                }
                return Err(text_of(&message));
            },
        }
        i += 1;
    }
    Ok(pages)
}

/// What the arguments ask for.
#[derive(Debug)]
pub struct Command {
    pub pdf_path: String,
    pub output_file: Option<String>,
    pub json: bool,
    pub items_json: bool,
    pub raw: bool,
    pub compact: bool,
    pub page_numbers: bool,
    pub detect_only: bool,
    pub analyze: bool,
    pub password: Option<String>,
    pub page_filter: Option<Vec<u32>>,
    pub ocr: Option<OcrMode>,
}

/// Why the arguments are refused.
#[derive(Debug)]
pub enum CommandError {
    /// There is no file to work on.
    Usage,
    /// An argument is not valid.
    Argument { message: String },
    /// The OCR options are not valid.
    Ocr { message: String },
}

/// Why arguments are refused.
pub enum RefusalView {
    Usage,
    Argument { message: Seq<char> },
    Ocr { message: Seq<char> },
}

impl View for CommandError {
    type V = RefusalView;

    open spec fn view(&self) -> RefusalView {
        match *self {
            CommandError::Usage => RefusalView::Usage,
            CommandError::Argument { message } => RefusalView::Argument { message: message@ },
            CommandError::Ocr { message } => RefusalView::Ocr { message: message@ },
        }
    }
}

/// The OCR mode that a word names.
pub open spec fn mode_named(word: Seq<char>) -> Option<OcrMode> {
    if word == "off"@ {
        Some(OcrMode::Off)
    } else if word == "auto"@ {
        Some(OcrMode::Auto)
    } else if word == "force"@ {
        Some(OcrMode::Force)
    } else {
        None
    }
}

/// An option that only makes sense with OCR is given.
pub open spec fn has_ocr_option(args: Seq<Seq<char>>) -> bool {
    is_given(args, "--ocr-dpi"@) || is_given(args, "--ocr-min-confidence"@) || is_given(
        args,
        "--ocr-hosted-threshold"@,
    ) || is_given(args, "--ocr-model-dir"@) || is_given(args, "--ocr-offline"@)
}

/// What is wrong with the OCR options.
pub open spec fn ocr_refusal(args: Seq<Seq<char>>) -> Option<RefusalView> {
    match value_of(args, "--ocr"@) {
        ArgumentView::Given(word) => if is_given(args, "--items-json"@) || is_given(args, "--detect-only"@)
            || is_given(args, "--analyze"@) {
            Some(
                RefusalView::Ocr {
                    message: "--ocr cannot be combined with --items-json, --detect-only, or --analyze"@,
                },
            )
        } else if mode_named(word) is None {
            Some(
                RefusalView::Ocr {
                    message: "invalid --ocr mode "@ + debug_text(word) + "; expected off, auto, or force"@,
                },
            )
        } else {
            None
        },
        _ => if has_ocr_option(args) {
            Some(RefusalView::Ocr { message: "OCR options require --ocr off, --ocr auto, or --ocr force"@ })
        } else {
            None
        },
    }
}

/// The first thing wrong with the arguments.
pub open spec fn refusal(args: Seq<Seq<char>>) -> Option<RefusalView> {
    if args.len() < 2 {
        Some(RefusalView::Usage)
    } else if value_of(args, "--ocr"@) is Missing {
        Some(RefusalView::Argument { message: "--ocr"@ + " requires a value"@ })
    } else if value_of(args, "--password"@) is Missing {
        Some(RefusalView::Argument { message: "--password"@ + " requires a value"@ })
    } else {
        match value_of(args, "--select-pages"@) {
            ArgumentView::Missing => Some(
                RefusalView::Argument { message: "--select-pages requires a value (e.g. 1,3,5-10)"@ },
            ),
            ArgumentView::Given(spec) => match page_spec_fault(spec) {
                Some(message) => Some(
                    RefusalView::Argument { message: "invalid --select-pages value: "@ + message },
                ),
                None => ocr_refusal(args),
            },
            ArgumentView::Absent => ocr_refusal(args),
        }
    }
}

/// The text starts with two dashes.
pub open spec fn is_option(s: Seq<char>) -> bool {
    s.len() >= 2 && s[0] == '-' && s[1] == '-'
}

/// The command is what the arguments say.
pub open spec fn commands(args: Seq<Seq<char>>, c: Command) -> bool {
    &&& c.pdf_path@ == args[1]
    &&& match c.output_file {
        Some(path) => args.len() > 2 && !is_option(args[2]) && path@ == args[2],
        None => args.len() <= 2 || is_option(args[2]),
    }
    &&& c.json == is_given(args, "--json"@)
    &&& c.items_json == is_given(args, "--items-json"@)
    &&& c.raw == is_given(args, "--raw"@)
    &&& c.compact == is_given(args, "--compact"@)
    &&& c.page_numbers == is_given(args, "--pages"@)
    &&& c.detect_only == is_given(args, "--detect-only"@)
    &&& c.analyze == is_given(args, "--analyze"@)
    &&& match c.password {
        Some(word) => value_of(args, "--password"@) == ArgumentView::Given(word@),
        None => value_of(args, "--password"@) is Absent,
    }
    &&& match c.page_filter {
        Some(pages) => value_of(args, "--select-pages"@) matches ArgumentView::Given(spec) && ascending(pages@)
            && forall|p: u32| #[trigger] pages@.contains(p) <==> in_page_spec(spec, p),
        None => value_of(args, "--select-pages"@) is Absent,
    }
    &&& match c.ocr {
        Some(mode) => value_of(args, "--ocr"@) matches ArgumentView::Given(word) && mode_named(word) == Some(mode),
        None => value_of(args, "--ocr"@) is Absent,
    }
}

fn name_mode(word: &str) -> (r: Option<OcrMode>)
    ensures
        r == mode_named(word@),
{
    if same_text(word, "off") {
        Some(OcrMode::Off)
    } else if same_text(word, "auto") {
        Some(OcrMode::Auto)
    } else if same_text(word, "force") {
        Some(OcrMode::Force)
    } else {
        None
    }
}

fn looks_like_option(s: &str) -> (r: bool)
    ensures
        r == is_option(s@),
{
    let chars = characters(s);
    chars.len() >= 2 && chars[0] == '-' && chars[1] == '-'
}

/// Reads the OCR mode, or says what is wrong with the OCR options.
fn parse_ocr(args: &Vec<String>) -> (r: Result<Option<OcrMode>, CommandError>)
    requires
        !(value_of(strings(args@), "--ocr"@) is Missing),
    ensures
        match r {
            Ok(mode) => ocr_refusal(strings(args@)) is None && match mode {
                Some(mode) => value_of(strings(args@), "--ocr"@) matches ArgumentView::Given(word) && mode_named(word)
                    == Some(mode),
                None => value_of(strings(args@), "--ocr"@) is Absent,
            },
            Err(error) => ocr_refusal(strings(args@)) == Some(error@),
        },
{
    let value = argument_value(args, "--ocr");
    if let Ok(Some(word)) = value {
        if has_flag(args, "--items-json") || has_flag(args, "--detect-only") || has_flag(args, "--analyze") {
            return Err(
                CommandError::Ocr {
                    message:
                        "--ocr cannot be combined with --items-json, --detect-only, or --analyze".to_string(),
                },
            );
        }
        match name_mode(word.as_str()) {
            Some(mode) => Ok(Some(mode)),
            None => {
                let mut out = characters("invalid --ocr mode ");
                push_text(&mut out, debug_format(word.as_str()).as_str());
                push_text(&mut out, "; expected off, auto, or force");
                Err(CommandError::Ocr { message: text_of(&out) })
            },
        }
    } else {
        if has_flag(args, "--ocr-dpi") || has_flag(args, "--ocr-min-confidence") || has_flag(
            args,
            "--ocr-hosted-threshold",
        ) || has_flag(args, "--ocr-model-dir") || has_flag(args, "--ocr-offline") {
            return Err(
                CommandError::Ocr {
                    message: "OCR options require --ocr off, --ocr auto, or --ocr force".to_string(),
                },
            );
        }
        Ok(None)
    }
}

/// Reads the page filter, or says what is wrong with it.
fn parse_filter(args: &Vec<String>) -> (r: Result<Option<Vec<u32>>, CommandError>)
    ensures
        match (r, value_of(strings(args@), "--select-pages"@)) {
            (Ok(None), ArgumentView::Absent) => true,
            (Ok(Some(pages)), ArgumentView::Given(spec)) => {
                &&& page_spec_fault(spec) is None
                &&& ascending(pages@)
                &&& forall|p: u32| #[trigger] pages@.contains(p) <==> in_page_spec(spec, p)
            },
            (Err(error), ArgumentView::Missing) => error@ == (RefusalView::Argument {
                message: "--select-pages requires a value (e.g. 1,3,5-10)"@,
            }),
            (Err(error), ArgumentView::Given(spec)) => page_spec_fault(spec) matches Some(message) && error@
                == (RefusalView::Argument { message: "invalid --select-pages value: "@ + message }),
            _ => false,
        },
{
    match argument_value(args, "--select-pages") {
        Ok(None) => Ok(None),
        Ok(Some(spec)) => match parse_page_spec(spec.as_str()) {
            Ok(pages) => Ok(Some(pages)),
            Err(message) => {
                let mut out = characters("invalid --select-pages value: ");
                push_text(&mut out, message.as_str());
                Err(CommandError::Argument { message: text_of(&out) })
            },
        },
        Err(_) => Err(
            CommandError::Argument { message: "--select-pages requires a value (e.g. 1,3,5-10)".to_string() },
        ),
    }
}

/// Reads the arguments, the name of the program first.
pub fn parse_command(args: &Vec<String>) -> (r: Result<Command, CommandError>)
    ensures
        match r {
            Ok(command) => refusal(strings(args@)) is None && commands(strings(args@), command),
            Err(error) => refusal(strings(args@)) == Some(error@),
        },
{
    let ghost model = strings(args@);
    if args.len() < 2 {
        return Err(CommandError::Usage);
    }
    if let Err(message) = argument_value(args, "--ocr") {
        return Err(CommandError::Argument { message });
    }
    let password = match argument_value(args, "--password") {
        Ok(Some(word)) => Some(word.clone()),
        Ok(None) => None,
        Err(message) => {
            return Err(CommandError::Argument { message });
        },
    };
    let page_filter = match parse_filter(args) {
        Ok(filter) => filter,
        Err(error) => {
            return Err(error);
        },
    };
    let ocr = match parse_ocr(args) {
        Ok(mode) => mode,
        Err(error) => {
            return Err(error);
        },
    };
    assert(model[1] == args@[1]@);
    let output_file = if args.len() > 2 && !looks_like_option(args[2].as_str()) {
        assert(model[2] == args@[2]@);
        Some(args[2].clone())
    } else {
        proof {
            if args@.len() > 2 {
                assert(model[2] == args@[2]@);
            }
        }
        None
    };
    Ok(
        Command {
            pdf_path: args[1].clone(),
            output_file,
            json: has_flag(args, "--json"),
            items_json: has_flag(args, "--items-json"),
            raw: has_flag(args, "--raw"),
            compact: has_flag(args, "--compact"),
            page_numbers: has_flag(args, "--pages"),
            detect_only: has_flag(args, "--detect-only"),
            analyze: has_flag(args, "--analyze"),
            password,
            page_filter,
            ocr,
        },
    )
}

/// How far the document is processed.
pub fn process_mode(command: &Command) -> (r: ProcessMode)
    ensures
        r == if command.detect_only {
            ProcessMode::DetectOnly
        } else if command.analyze {
            ProcessMode::Analyze
        } else {
            ProcessMode::Full
        },
{
    if command.detect_only {
        ProcessMode::DetectOnly
    } else if command.analyze {
        ProcessMode::Analyze
    } else {
        ProcessMode::Full
    }
}

} // verus!
