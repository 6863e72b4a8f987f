//! The form part that edits where the password of a collection comes from: from the secret
//! service by an attribute, or from the output of a command.

use vstd::prelude::*;
use vstd::string::StrSliceExecFns;

use crate::text::{is_whitespace, is_word, lemma_skip_ws, lemma_trim_end_at, skip_ws, trim_end_at, lemma_trim_join, lemma_words_of_join, join_spaces, join_with_spaces, split_whitespace, str_eq, to_string, trim, trimmed, words};

verus! {

/// How the password of a collection is looked up.
#[derive(Debug, Copy, Clone, PartialEq, Eq)]
pub enum PasswordMode {
    SecretService,
    Command,
}

/// The text of a mode in forms.
pub open spec fn mode_text(m: PasswordMode) -> Seq<char> {
    match m {
        PasswordMode::SecretService => seq!['S', 'E', 'C', 'R', 'E', 'T', 'S', 'E', 'R', 'V', 'I', 'C', 'E'],
        PasswordMode::Command => seq!['C', 'O', 'M', 'M', 'A', 'N', 'D'],
    }
}

/// The mode a form text names; any other text names none.
pub open spec fn mode_of(s: Seq<char>) -> Option<PasswordMode> {
    if s == mode_text(PasswordMode::SecretService) {
        Some(PasswordMode::SecretService)
    } else if s == mode_text(PasswordMode::Command) {
        Some(PasswordMode::Command)
    } else {
        None
    }
}

impl PasswordMode {
    /// The text of this mode in forms.
    pub fn to_text(&self) -> (r: &'static str)
        ensures
            r@ == mode_text(*self),
    {
        proof {
            reveal_strlit("SECRETSERVICE");
            reveal_strlit("COMMAND");
        }
        match self {
            PasswordMode::SecretService => "SECRETSERVICE",
            PasswordMode::Command => "COMMAND",
        }
    }

    /// The mode that a form value names, if any; a form reads an unknown value as no mode.
    pub fn from_text(s: &str) -> (r: Option<PasswordMode>)
        ensures
            r == mode_of(s@),
    {
        proof {
            reveal_strlit("SECRETSERVICE");
            reveal_strlit("COMMAND");
            assert("SECRETSERVICE"@ =~= mode_text(PasswordMode::SecretService));
            assert("COMMAND"@ =~= mode_text(PasswordMode::Command));
        }
        if str_eq(s, "SECRETSERVICE") {
            Some(PasswordMode::SecretService)
        } else if str_eq(s, "COMMAND") {
            Some(PasswordMode::Command)
        } else {
            None
        }
    }
}

/// The label of an optional mode: its text, or `NONE`.
pub fn mode_label(mode: Option<PasswordMode>) -> (r: &'static str)
    ensures
        r@ == match mode {
            Some(m) => mode_text(m),
            None => seq!['N', 'O', 'N', 'E'],
        },
{
    proof {
        reveal_strlit("NONE");
        assert("NONE"@ =~= seq!['N', 'O', 'N', 'E']);
    }
    match mode {
        Some(m) => m.to_text(),
        None => "NONE",
    }
}

/// Where a password comes from, as the settings keep it.
#[derive(Debug, Clone, PartialEq, Eq)]
pub enum PasswordSource {
    /// The secret service entry with these attributes, in the order of their keys.
    SecretService { attributes: Vec<(String, String)> },
    /// The output of this command, as program and arguments.
    Command { command: Vec<String> },
}

/// Whether key `a` sorts before key `b`, character by character, as string keys of an ordered
/// map sort.
pub open spec fn key_lt(a: Seq<char>, b: Seq<char>) -> bool
    decreases a.len(),
{
    if b.len() == 0 {
        false
    } else if a.len() == 0 {
        true
    } else if a[0] != b[0] {
        (a[0] as u32) < (b[0] as u32)
    } else {
        key_lt(a.drop_first(), b.drop_first())
    }
}

/// A source as the settings keep it: the attributes of a secret service entry are an ordered
/// map, so their keys are strictly increasing.
pub open spec fn source_wf(s: SourceView) -> bool {
    match s {
        SourceView::SecretService(attrs) => forall|i: int, j: int|
            0 <= i < j < attrs.len() ==> key_lt(#[trigger] attrs[i].0, #[trigger] attrs[j].0),
        SourceView::Command(_) => true,
    }
}

/// A password source in characters.
pub enum SourceView {
    SecretService(Seq<(Seq<char>, Seq<char>)>),
    Command(Seq<Seq<char>>),
}

impl PasswordSource {
    pub open spec fn view(&self) -> SourceView {
        match self {
            PasswordSource::SecretService { attributes } => SourceView::SecretService(
                attributes@.map_values(|a: (String, String)| (a.0@, a.1@)),
            ),
            PasswordSource::Command { command } => SourceView::Command(
                command@.map_values(|c: String| c@),
            ),
        }
    }
}

/// The password part of a collection form.
#[derive(Debug, Clone)]
pub struct PasswordSourceRequest {
    pub mode: Option<PasswordMode>,
    pub attr_key: String,
    pub attr_value: String,
    pub cmd: String,
}

/// A form in characters.
pub struct RequestView {
    pub mode: Option<PasswordMode>,
    pub attr_key: Seq<char>,
    pub attr_value: Seq<char>,
    pub cmd: Seq<char>,
}

impl PasswordSourceRequest {
    pub open spec fn view(&self) -> RequestView {
        RequestView {
            mode: self.mode,
            attr_key: self.attr_key@,
            attr_value: self.attr_value@,
            cmd: self.cmd@,
        }
    }
}

/// An empty form for the secret service.
pub open spec fn default_request() -> RequestView {
    RequestView {
        mode: Some(PasswordMode::SecretService),
        attr_key: seq![],
        attr_value: seq![],
        cmd: seq![],
    }
}

impl Default for PasswordSourceRequest {
    fn default() -> (r: Self)
        ensures
            r@ == default_request(),
    {
        PasswordSourceRequest {
            mode: Some(PasswordMode::SecretService),
            attr_key: String::new(),
            attr_value: String::new(),
            cmd: String::new(),
        }
    }
}

/// The form that shows a source: the first attribute (the one with the smallest key, as the
/// attributes are sorted by key) of a secret service entry, or the command
/// joined by spaces; an empty secret service form without a source.
pub open spec fn request_of(source: Option<SourceView>) -> RequestView {
    match source {
        Some(SourceView::SecretService(attrs)) => RequestView {
            mode: Some(PasswordMode::SecretService),
            attr_key: if attrs.len() > 0 {
                attrs[0].0
            } else {
                seq![]
            },
            attr_value: if attrs.len() > 0 {
                attrs[0].1
            } else {
                seq![]
            },
            cmd: seq![],
        },
        Some(SourceView::Command(cmd)) => RequestView {
            mode: Some(PasswordMode::Command),
            attr_key: seq![],
            attr_value: seq![],
            cmd: join_spaces(cmd),
        },
        None => default_request(),
    }
}

/// The source that a form describes: the one attribute for the secret service if key and value
/// are given, the words of the command if it has any; none without a mode.
pub open spec fn source_of(req: RequestView) -> Option<SourceView> {
    match req.mode {
        None => None,
        Some(PasswordMode::SecretService) => if req.attr_key.len() == 0 || req.attr_value.len()
            == 0 {
            None
        } else {
            Some(SourceView::SecretService(seq![(req.attr_key, req.attr_value)]))
        },
        Some(PasswordMode::Command) => if trimmed(req.cmd).len() == 0 {
            None
        } else {
            Some(SourceView::Command(words(trimmed(req.cmd))))
        },
    }
}

/// What is missing in a form.
#[derive(Debug, Copy, Clone, PartialEq, Eq)]
pub enum PasswordCheckError {
    /// The secret service needs an attribute key and value.
    MissingLookup,
    /// The command is empty.
    MissingCommand,
}

impl PasswordCheckError {
    /// The translation key of the message for this error.
    pub fn key(&self) -> (r: &'static str)
        ensures
            r@ == match self {
                PasswordCheckError::MissingLookup => "error.collection_password_lookup"@,
                PasswordCheckError::MissingCommand => "error.collection_password_command"@,
            },
    {
        match self {
            PasswordCheckError::MissingLookup => "error.collection_password_lookup",
            PasswordCheckError::MissingCommand => "error.collection_password_command",
        }
    }
}

/// What a form lacks: a key or value for the secret service, or a command that is not blank.
pub open spec fn check_of(req: RequestView) -> Option<PasswordCheckError> {
    match req.mode {
        Some(PasswordMode::SecretService) => if req.attr_key.len() == 0 || req.attr_value.len()
            == 0 {
            Some(PasswordCheckError::MissingLookup)
        } else {
            None
        },
        Some(PasswordMode::Command) => if trimmed(req.cmd).len() == 0 {
            Some(PasswordCheckError::MissingCommand)
        } else {
            None
        },
        None => None,
    }
}

/// A secret-service source needs both an attribute key and a value: a secret-service form gives a
/// source exactly when both are filled in, and the source then holds that one attribute, with a
/// non-empty key and value; a form without a mode gives none, and each source has the form's
/// mode.
pub proof fn lemma_secret_service_needs_key_and_value(req: RequestView)
    ensures
        req.mode == Some(PasswordMode::SecretService) ==> (source_of(req) is Some <==> (
        req.attr_key.len() > 0 && req.attr_value.len() > 0)),
        source_of(req) matches Some(SourceView::SecretService(attrs)) ==> {
            &&& req.mode == Some(PasswordMode::SecretService)
            &&& attrs == seq![(req.attr_key, req.attr_value)]
            &&& forall|i: int| 0 <= i < attrs.len() ==> (#[trigger] attrs[i]).0.len() > 0 && attrs[i].1.len() > 0
        },
        source_of(req) matches Some(SourceView::Command(_)) ==> req.mode == Some(PasswordMode::Command),
        req.mode is None ==> source_of(req) is None,
{
}

/// A command source needs a command: a command form gives a source exactly when its command
/// holds a character that is not white space, and a form whose command is all white space lacks
/// the command.
pub proof fn lemma_command_needs_text(req: RequestView)
    ensures
        req.mode == Some(PasswordMode::Command) ==> (source_of(req) is Some <==> exists|k: int|
            0 <= k < req.cmd.len() && !is_whitespace(#[trigger] req.cmd[k])),
        req.mode == Some(PasswordMode::Command) && (forall|k: int|
            0 <= k < req.cmd.len() ==> is_whitespace(#[trigger] req.cmd[k])) ==> check_of(req) == Some(
            PasswordCheckError::MissingCommand,
        ),
{
    let c = req.cmd;
    lemma_skip_ws(c, 0);
    lemma_trim_end_at(c, c.len() as int);
    let a = skip_ws(c, 0);
    let b = trim_end_at(c, c.len() as int);
    if exists|k: int| 0 <= k < c.len() && !is_whitespace(#[trigger] c[k]) {
        let k = choose|k: int| 0 <= k < c.len() && !is_whitespace(#[trigger] c[k]);
        assert(a <= k);
        assert(k < b);
        assert(trimmed(c).len() > 0);
    }
    if trimmed(c).len() > 0 {
        assert(a < b);
        assert(!is_whitespace(c[a]));
    }
}

/// Checking a form agrees with turning it into a source: a form passes exactly when it has no
/// mode or gives a source. A secret-service form without a key or a value lacks the lookup, and
/// a command form that gives no source lacks the command.
pub proof fn lemma_check_agrees_with_source(req: RequestView)
    ensures
        check_of(req) is None <==> (req.mode is None || source_of(req) is Some),
        req.mode == Some(PasswordMode::SecretService) && (req.attr_key.len() == 0 || req.attr_value.len() == 0)
            ==> check_of(req) == Some(PasswordCheckError::MissingLookup),
        req.mode == Some(PasswordMode::Command) && source_of(req) is None ==> check_of(req) == Some(
            PasswordCheckError::MissingCommand,
        ),
{
}

/// The view of an optional source.
pub open spec fn opt_source(s: Option<&PasswordSource>) -> Option<SourceView> {
    match s {
        Some(s) => Some(s.view()),
        None => None,
    }
}

impl PasswordSourceRequest {
    /// The form that shows the given source.
    pub fn from_source(source: Option<&PasswordSource>) -> (r: Self)
        requires
            match opt_source(source) {
                Some(v) => source_wf(v),
                None => true,
            },
        ensures
            r@ == request_of(opt_source(source)),
    {
        match source {
            Some(PasswordSource::SecretService { attributes }) => {
                let (attr_key, attr_value) = if attributes.len() > 0 {
                    (to_string(attributes[0].0.as_str()), to_string(attributes[0].1.as_str()))
                } else {
                    (String::new(), String::new())
                };
                PasswordSourceRequest {
                    mode: Some(PasswordMode::SecretService),
                    attr_key,
                    attr_value,
                    cmd: String::new(),
                }
            },
            Some(PasswordSource::Command { command }) => PasswordSourceRequest {
                mode: Some(PasswordMode::Command),
                attr_key: String::new(),
                attr_value: String::new(),
                cmd: join_with_spaces(command),
            },
            None => Self::default(),
        }
    }

    /// The source that this form describes, if it describes one.
    pub fn to_source(&self) -> (r: Option<PasswordSource>)
        ensures
            match (r, source_of(self@)) {
                (Some(a), Some(b)) => a.view() == b,
                (None, None) => true,
                _ => false,
            },
            r matches Some(a) ==> source_wf(a.view()),
    {
        match self.mode {
            None => None,
            Some(PasswordMode::SecretService) => {
                if self.attr_key.as_str().unicode_len() == 0 || self.attr_value.as_str().unicode_len() == 0 {
                    proof {
                        assert(self.attr_key@.len() == 0 || self.attr_value@.len() == 0);
                    }
                    None
                } else {
                    let mut attributes: Vec<(String, String)> = Vec::new();
                    attributes.push(
                        (to_string(self.attr_key.as_str()), to_string(self.attr_value.as_str())),
                    );
                    let r = PasswordSource::SecretService { attributes };
                    proof {
                        assert(r.view()->SecretService_0 =~= seq![(self.attr_key@, self.attr_value@)]);
                    }
                    Some(r)
                }
            },
            Some(PasswordMode::Command) => {
                let cmd = trim(self.cmd.as_str());
                if cmd.as_str().unicode_len() == 0 {
                    None
                } else {
                    let command = split_whitespace(cmd.as_str());
                    let r = PasswordSource::Command { command };
                    proof {
                        assert(r.view()->Command_0 =~= words(trimmed(self.cmd@)));
                    }
                    Some(r)
                }
            },
        }
    }

    /// Checks that the form is complete, and says what is missing otherwise.
    pub fn check(&self) -> (r: Result<(), PasswordCheckError>)
        ensures
            match (r, check_of(self@)) {
                (Ok(()), None) => true,
                (Err(a), Some(b)) => a == b,
                _ => false,
            },
    {
        match self.mode {
            Some(PasswordMode::SecretService) => {
                if self.attr_key.as_str().unicode_len() == 0 || self.attr_value.as_str().unicode_len() == 0 {
                    Err(PasswordCheckError::MissingLookup)
                } else {
                    Ok(())
                }
            },
            Some(PasswordMode::Command) => {
                if trim(self.cmd.as_str()).as_str().unicode_len() == 0 {
                    Err(PasswordCheckError::MissingCommand)
                } else {
                    Ok(())
                }
            },
            None => Ok(()),
        }
    }
}

/// The element id of a form field: its name with brackets turned into underscores.
pub open spec fn field_id(name: Seq<char>) -> Seq<char> {
    name.map_values(|c: char| if c == '[' || c == ']' { '_' } else { c })
}

/// The element id of a form field: its name with brackets turned into underscores.
pub fn template_id(name: &str) -> (r: String)
    ensures
        r@ == field_id(name@),
{
    let n = name.unicode_len();
    let mut out = String::new();
    let mut i: usize = 0;
    while i < n
        invariant
            n == name@.len(),
            i <= n,
            out@ == field_id(name@.subrange(0, i as int)),
        decreases n - i,
    {
        let c = name.get_char(i);
        let d = if c == '[' || c == ']' { '_' } else { c };
        crate::text::string_push(&mut out, d);
        proof {
            assert(field_id(name@.subrange(0, i as int + 1)) =~= field_id(name@.subrange(0, i as int)).push(d));
        }
        i = i + 1;
    }
    proof {
        assert(name@.subrange(0, n as int) =~= name@);
    }
    out
}

/// A source that a form can show completely: a secret service entry with one attribute whose
/// key and value are not empty, or a command of at least one word, each without white space.
pub open spec fn plain_source(s: SourceView) -> bool {
    match s {
        SourceView::SecretService(attrs) => attrs.len() == 1 && attrs[0].0.len() > 0
            && attrs[0].1.len() > 0,
        SourceView::Command(ws) => ws.len() > 0 && forall|k: int| 0 <= k < ws.len() ==> is_word(#[trigger] ws[k]),
    }
}

/// Showing a source in the form and reading the form back gives the source again, for every
/// source that the form can show completely.
pub proof fn lemma_source_roundtrip(s: SourceView)
    requires
        plain_source(s),
    ensures
        source_of(request_of(Some(s))) == Some(s),
        source_wf(s),
{
    match s {
        SourceView::SecretService(attrs) => {
            assert(seq![(attrs[0].0, attrs[0].1)] =~= attrs);
        },
        SourceView::Command(ws) => {
            lemma_trim_join(ws);
            lemma_words_of_join(ws);
        },
    }
}

} // verus!
