//! Content lines (RFC 5545, 3.1): `NAME *(";" PARAM "=" VALUE) ":" VALUE`.

use vstd::prelude::*;
use vstd::string::StrSliceExecFns;

use super::error::{ParseError, ParseErrorType};
use crate::text::{new_string, push_str, str_eq, string_push, substring, to_string};

verus! {

/// A property parameter, such as `TZID=Europe/Berlin`.
#[derive(Clone, Debug)]
pub struct Parameter {
    pub name: String,
    pub value: String,
}

/// A property: a name, parameters and a value.
#[derive(Clone, Debug)]
pub struct Property {
    name: String,
    params: Vec<Parameter>,
    value: String,
}

/// A parameter in characters.
pub struct ParamView {
    pub name: Seq<char>,
    pub value: Seq<char>,
}

/// A property in characters.
pub struct PropertyView {
    pub name: Seq<char>,
    pub params: Seq<ParamView>,
    pub value: Seq<char>,
}

impl Parameter {
    pub open spec fn view(&self) -> ParamView {
        ParamView { name: self.name@, value: self.value@ }
    }
}

impl View for Property {
    type V = PropertyView;

    closed spec fn view(&self) -> PropertyView {
        PropertyView {
            name: self.name@,
            params: self.params@.map_values(|p: Parameter| p.view()),
            value: self.value@,
        }
    }
}

// ---------------------------------------------------------------------------------------------
// The grammar
// ---------------------------------------------------------------------------------------------

/// The index of the first character at or after `i` that is one of `a` and `b`, or the length.
pub open spec fn find2(s: Seq<char>, i: int, a: char, b: char) -> int
    decreases s.len() - i,
{
    if i < 0 || i >= s.len() {
        s.len() as int
    } else if s[i] == a || s[i] == b {
        i
    } else {
        find2(s, i + 1, a, b)
    }
}

/// The index of the first character at or after `i` that is one of `a`, `b` and `c`, or the
/// length.
pub open spec fn find3(s: Seq<char>, i: int, a: char, b: char, c: char) -> int
    decreases s.len() - i,
{
    if i < 0 || i >= s.len() {
        s.len() as int
    } else if s[i] == a || s[i] == b || s[i] == c {
        i
    } else {
        find3(s, i + 1, a, b, c)
    }
}

pub proof fn lemma_find2(s: Seq<char>, i: int, a: char, b: char)
    requires
        0 <= i <= s.len(),
    ensures
        i <= find2(s, i, a, b) <= s.len(),
        find2(s, i, a, b) < s.len() ==> (s[find2(s, i, a, b)] == a || s[find2(s, i, a, b)] == b),
        forall|k: int| i <= k < find2(s, i, a, b) ==> #[trigger] s[k] != a && s[k] != b,
    decreases s.len() - i,
{
    if i < s.len() && !(s[i] == a || s[i] == b) {
        lemma_find2(s, i + 1, a, b);
    }
}

pub proof fn lemma_find3(s: Seq<char>, i: int, a: char, b: char, c: char)
    requires
        0 <= i <= s.len(),
    ensures
        i <= find3(s, i, a, b, c) <= s.len(),
        find3(s, i, a, b, c) < s.len() ==> (s[find3(s, i, a, b, c)] == a || s[find3(s, i, a, b, c)]
            == b || s[find3(s, i, a, b, c)] == c),
        forall|k: int| i <= k < find3(s, i, a, b, c) ==> #[trigger] s[k] != a && s[k] != b && s[k] != c,
    decreases s.len() - i,
{
    if i < s.len() && !(s[i] == a || s[i] == b || s[i] == c) {
        lemma_find3(s, i + 1, a, b, c);
    }
}

/// The parameters of a content line from index `i` on, which follows a `;`, and the index of the
/// `:` that ends them; or the error that the line has.
pub open spec fn parse_params(s: Seq<char>, i: int) -> Result<(Seq<ParamView>, int), ParseErrorType>
    decreases s.len() - i,
{
    if i < 0 || i > s.len() {
        Err(ParseErrorType::MissingParamValue)
    } else {
        let eq = find3(s, i, '=', ';', ':');
        proof {
            lemma_find3(s, i, '=', ';', ':');
        }
        if eq >= s.len() || s[eq] != '=' {
            Err(ParseErrorType::MissingParamValue)
        } else {
            let name = s.subrange(i, eq);
            let vstart = eq + 1;
            if vstart < s.len() && s[vstart] == '"' {
                let q = find2(s, vstart + 1, '"', '"');
                proof {
                    lemma_find2(s, vstart + 1, '"', '"');
                }
                if q >= s.len() || q + 1 >= s.len() || (s[q + 1] != ';' && s[q + 1] != ':') {
                    Err(ParseErrorType::MissingParamEnd)
                } else {
                    let p = ParamView { name, value: s.subrange(vstart + 1, q) };
                    if s[q + 1] == ':' {
                        Ok((seq![p], q + 1))
                    } else {
                        match parse_params(s, q + 2) {
                            Ok((rest, colon)) => Ok((seq![p] + rest, colon)),
                            Err(e) => Err(e),
                        }
                    }
                }
            } else {
                let vend = find2(s, vstart, ';', ':');
                proof {
                    lemma_find2(s, vstart, ';', ':');
                }
                if vend >= s.len() {
                    Err(ParseErrorType::MissingParamEnd)
                } else {
                    let p = ParamView { name, value: s.subrange(vstart, vend) };
                    if s[vend] == ':' {
                        Ok((seq![p], vend))
                    } else {
                        match parse_params(s, vend + 1) {
                            Ok((rest, colon)) => Ok((seq![p] + rest, colon)),
                            Err(e) => Err(e),
                        }
                    }
                }
            }
        }
    }
}

/// The property that a content line holds, or the error that it has.
pub open spec fn parse_property(s: Seq<char>) -> Result<PropertyView, ParseErrorType> {
    let end = find2(s, 0, ';', ':');
    if end >= s.len() {
        Err(ParseErrorType::MissingNameEnd)
    } else if s[end] == ':' {
        Ok(PropertyView { name: s.subrange(0, end), params: seq![], value: s.subrange(end + 1, s.len() as int) })
    } else {
        match parse_params(s, end + 1) {
            Ok((params, colon)) => Ok(
                PropertyView {
                    name: s.subrange(0, end),
                    params,
                    value: s.subrange(colon + 1, s.len() as int),
                },
            ),
            Err(e) => Err(e),
        }
    }
}

/// Whether a parameter value has to be quoted: it holds a `:`, `;` or `,`.
pub open spec fn needs_quotes(v: Seq<char>) -> bool {
    exists|i: int| 0 <= i < v.len() && (v[i] == ':' || v[i] == ';' || v[i] == ',')
}

/// The text of a parameter: `;NAME=VALUE`, the value quoted where it needs quotes.
pub open spec fn param_text(p: ParamView) -> Seq<char> {
    seq![';'] + p.name + seq!['='] + if needs_quotes(p.value) {
        seq!['"'] + p.value + seq!['"']
    } else {
        p.value
    }
}

/// The text of a sequence of parameters.
pub open spec fn params_text(ps: Seq<ParamView>) -> Seq<char>
    decreases ps.len(),
{
    if ps.len() == 0 {
        seq![]
    } else {
        params_text(ps.drop_last()) + param_text(ps.last())
    }
}

/// The content line of a property.
pub open spec fn property_text(p: PropertyView) -> Seq<char> {
    p.name + params_text(p.params) + seq![':'] + p.value
}

/// The value of the first parameter with the given name.
pub open spec fn first_param(ps: Seq<ParamView>, name: Seq<char>) -> Option<Seq<char>> {
    if exists|i: int| 0 <= i < ps.len() && ps[i].name == name {
        let i = choose|i: int|
            0 <= i < ps.len() && ps[i].name == name && forall|j: int|
                0 <= j < i ==> ps[j].name != name;
        Some(ps[i].value)
    } else {
        None
    }
}

proof fn lemma_first_param(ps: Seq<ParamView>, name: Seq<char>, i: int)
    requires
        0 <= i < ps.len(),
        ps[i].name == name,
        forall|j: int| 0 <= j < i ==> ps[j].name != name,
    ensures
        first_param(ps, name) == Some(ps[i].value),
{
    let k = choose|k: int|
        0 <= k < ps.len() && ps[k].name == name && forall|j: int| 0 <= j < k ==> ps[j].name != name;
    assert(0 <= k < ps.len() && ps[k].name == name && forall|j: int| 0 <= j < k ==> ps[j].name != name);
    if k < i {
        assert(ps[k].name != name);
    } else if i < k {
        assert(ps[i].name != name);
    }
}

// ---------------------------------------------------------------------------------------------
// Parsing
// ---------------------------------------------------------------------------------------------

fn find2_exec(s: &str, n: usize, from: usize, a: char, b: char) -> (r: usize)
    requires
        n == s@.len(),
        from <= n,
    ensures
        r == find2(s@, from as int, a, b),
{
    let mut i = from;
    while i < n
        invariant
            n == s@.len(),
            from <= i <= n,
            find2(s@, from as int, a, b) == find2(s@, i as int, a, b),
        decreases n - i,
    {
        let c = s.get_char(i);
        if c == a || c == b {
            return i;
        }
        i = i + 1;
    }
    i
}

fn find3_exec(s: &str, n: usize, from: usize, a: char, b: char, c: char) -> (r: usize)
    requires
        n == s@.len(),
        from <= n,
    ensures
        r == find3(s@, from as int, a, b, c),
{
    let mut i = from;
    while i < n
        invariant
            n == s@.len(),
            from <= i <= n,
            find3(s@, from as int, a, b, c) == find3(s@, i as int, a, b, c),
        decreases n - i,
    {
        let x = s.get_char(i);
        if x == a || x == b || x == c {
            return i;
        }
        i = i + 1;
    }
    i
}

/// Parses the parameters from index `from` on.
fn parse_params_exec(s: &str, n: usize, from: usize) -> (r: Result<(Vec<Parameter>, usize), ParseErrorType>)
    requires
        n == s@.len(),
        from <= n,
    ensures
        match (r, parse_params(s@, from as int)) {
            (Ok((ps, colon)), Ok((vs, c))) => ps@.map_values(|p: Parameter| p.view()) == vs && colon
                == c,
            (Err(e), Err(f)) => e == f,
            _ => false,
        },
        r matches Ok((ps, colon)) ==> colon < n,
{
    let mut out: Vec<Parameter> = Vec::new();
    let mut i = from;
    loop
        invariant
            n == s@.len(),
            from <= i <= n,
            parse_params(s@, from as int) == match parse_params(s@, i as int) {
                Ok((rest, colon)) => Ok(
                    (out@.map_values(|p: Parameter| p.view()) + rest, colon),
                ),
                Err(e) => Err(e),
            },
        decreases n - i,
    {
        proof {
            lemma_find3(s@, i as int, '=', ';', ':');
        }
        let eq = find3_exec(s, n, i, '=', ';', ':');
        if eq >= n || s.get_char(eq) != '=' {
            return Err(ParseErrorType::MissingParamValue);
        }
        let name = substring(s, i, eq);
        let vstart = eq + 1;
        if vstart < n && s.get_char(vstart) == '"' {
            proof {
                lemma_find2(s@, vstart + 1, '"', '"');
            }
            let q = find2_exec(s, n, vstart + 1, '"', '"');
            if q >= n || q + 1 >= n {
                return Err(ParseErrorType::MissingParamEnd);
            }
            let after = s.get_char(q + 1);
            if after != ';' && after != ':' {
                return Err(ParseErrorType::MissingParamEnd);
            }
            let p = Parameter { name, value: substring(s, vstart + 1, q) };
            let ghost pv = p.view();
            let ghost before = out@.map_values(|p: Parameter| p.view());
            out.push(p);
            proof {
                assert(out@.map_values(|p: Parameter| p.view()) =~= before.push(pv));
            }
            if after == ':' {
                proof {
                    assert(before + seq![pv] =~= before.push(pv));
                }
                return Ok((out, q + 1));
            }
            proof {
                match parse_params(s@, q + 2) {
                    Ok((rest, colon)) => {
                        assert(before + (seq![pv] + rest) =~= before.push(pv) + rest);
                    },
                    Err(e) => {},
                }
            }
            i = q + 2;
        } else {
            proof {
                lemma_find2(s@, vstart as int, ';', ':');
            }
            let vend = find2_exec(s, n, vstart, ';', ':');
            if vend >= n {
                return Err(ParseErrorType::MissingParamEnd);
            }
            let p = Parameter { name, value: substring(s, vstart, vend) };
            let ghost pv = p.view();
            let ghost before = out@.map_values(|p: Parameter| p.view());
            let is_colon = s.get_char(vend) == ':';
            out.push(p);
            proof {
                assert(out@.map_values(|p: Parameter| p.view()) =~= before.push(pv));
            }
            if is_colon {
                proof {
                    assert(before + seq![pv] =~= before.push(pv));
                }
                return Ok((out, vend));
            }
            proof {
                match parse_params(s@, vend + 1) {
                    Ok((rest, colon)) => {
                        assert(before + (seq![pv] + rest) =~= before.push(pv) + rest);
                    },
                    Err(e) => {},
                }
            }
            i = vend + 1;
        }
    }
}

impl Property {
    /// Creates a new property.
    pub fn new(name: &str, params: Vec<Parameter>, value: &str) -> (r: Property)
        ensures
            r@ == (PropertyView {
                name: name@,
                params: params@.map_values(|p: Parameter| p.view()),
                value: value@,
            }),
    {
        Property { name: to_string(name), params, value: to_string(value) }
    }

    /// Returns the name of the property.
    pub fn name(&self) -> (r: &String)
        ensures
            r@ == self@.name,
    {
        &self.name
    }

    /// Returns the value of the property.
    pub fn value(&self) -> (r: &String)
        ensures
            r@ == self@.value,
    {
        &self.value
    }

    /// Returns the parameters of the property.
    pub fn params(&self) -> (r: &Vec<Parameter>)
        ensures
            r@.map_values(|p: Parameter| p.view()) == self@.params,
    {
        &self.params
    }

    /// Returns the value of the first parameter with the given name.
    pub fn param(&self, name: &str) -> (r: Option<&String>)
        ensures
            r is None ==> first_param(self@.params, name@) is None,
            r matches Some(v) ==> first_param(self@.params, name@) == Some(v@),
    {
        let mut i: usize = 0;
        while i < self.params.len()
            invariant
                i <= self.params@.len(),
                self@.params == self.params@.map_values(|p: Parameter| p.view()),
                forall|j: int| 0 <= j < i ==> self@.params[j].name != name@,
            decreases self.params@.len() - i,
        {
            if str_eq(self.params[i].name.as_str(), name) {
                assert(self@.params[i as int] == self.params@[i as int].view());
                proof {
                    lemma_first_param(self@.params, name@, i as int);
                }
                return Some(&self.params[i].value);
            }
            i = i + 1;
        }
        None
    }

    /// Parses the content line `line`, which is line `line_num` of its input.
    pub fn from_str_at(line: &str, line_num: usize) -> (r: Result<Property, ParseError>)
        ensures
            match (r, parse_property(line@)) {
                (Ok(p), Ok(v)) => p@ == v,
                (Err(e), Err(t)) => e == (ParseError { line: line_num, ty: t }),
                _ => false,
            },
    {
        let n = line.unicode_len();
        proof {
            lemma_find2(line@, 0, ';', ':');
        }
        let end = find2_exec(line, n, 0, ';', ':');
        if end >= n {
            return Err(ParseError::new(line_num, ParseErrorType::MissingNameEnd));
        }
        let name = substring(line, 0, end);
        if line.get_char(end) == ':' {
            let value = substring(line, end + 1, n);
            let p = Property { name, params: Vec::new(), value };
            proof {
                assert(p@.params =~= Seq::<ParamView>::empty());
            }
            return Ok(p);
        }
        match parse_params_exec(line, n, end + 1) {
            Ok((params, colon)) => {
                let value = substring(line, colon + 1, n);
                Ok(Property { name, params, value })
            },
            Err(t) => Err(ParseError::new(line_num, t)),
        }
    }

    /// The content line of this property.
    pub fn to_line(&self) -> (r: String)
        ensures
            r@ == property_text(self@),
    {
        let mut out = new_string();
        push_str(&mut out, self.name.as_str());
        let mut i: usize = 0;
        while i < self.params.len()
            invariant
                i <= self.params@.len(),
                self@.params == self.params@.map_values(|p: Parameter| p.view()),
                out@ == self@.name + params_text(self@.params.subrange(0, i as int)),
            decreases self.params@.len() - i,
        {
            let p = &self.params[i];
            let ghost before = out@;
            string_push(&mut out, ';');
            push_str(&mut out, p.name.as_str());
            string_push(&mut out, '=');
            let quote = value_needs_quotes(p.value.as_str());
            if quote {
                string_push(&mut out, '"');
            }
            push_str(&mut out, p.value.as_str());
            if quote {
                string_push(&mut out, '"');
            }
            proof {
                let ps = self@.params.subrange(0, i as int + 1);
                assert(ps.drop_last() =~= self@.params.subrange(0, i as int));
                assert(ps.last() == p.view());
                assert(out@ =~= before + param_text(p.view()));
            }
            i = i + 1;
        }
        string_push(&mut out, ':');
        push_str(&mut out, self.value.as_str());
        proof {
            assert(self@.params.subrange(0, self.params@.len() as int) =~= self@.params);
        }
        out
    }
}

fn value_needs_quotes(v: &str) -> (r: bool)
    ensures
        r == needs_quotes(v@),
{
    let n = v.unicode_len();
    let mut i: usize = 0;
    while i < n
        invariant
            n == v@.len(),
            i <= n,
            forall|k: int| 0 <= k < i ==> !(v@[k] == ':' || v@[k] == ';' || v@[k] == ','),
        decreases n - i,
    {
        let c = v.get_char(i);
        if c == ':' || c == ';' || c == ',' {
            return true;
        }
        i = i + 1;
    }
    false
}

impl std::str::FromStr for Property {
    type Err = ParseError;

    fn from_str(s: &str) -> (r: Result<Self, Self::Err>)
        ensures
            match (r, parse_property(s@)) {
                (Ok(p), Ok(v)) => p@ == v,
                (Err(e), Err(t)) => e == (ParseError { line: 0, ty: t }),
                _ => false,
            },
    {
        Property::from_str_at(s, 0)
    }
}

} // verus!
