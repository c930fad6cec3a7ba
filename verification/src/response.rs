//! Building a response: status, headers, the framed text that is sent, and the
//! values that a route's variables took from the request path.
use vstd::prelude::*;
use std::sync::Arc;

use crate::file::HttpFile;
use crate::text::{
    blen, chars_of, concat_chars, decimal, decimal_string, ends_with, join, join_exec,
    law_join_parts, starts_with, string_of, views,
};
use crate::{ResponseStatus, StatusView, status_text};

verus! {

/// A variable of a route with the value it took; an empty value is no value.
pub struct HttpVariable {
    name: String,
    value: Option<String>,
}

/// What an `HttpVariable` holds: its name and its value, if any.
pub type VariableView = (Seq<char>, Option<Seq<char>>);

impl View for HttpVariable {
    type V = VariableView;

    closed spec fn view(&self) -> VariableView {
        (
            self.name@,
            match self.value {
                Some(v) => Some(v@),
                None => None,
            },
        )
    }
}

/// The value that a text gives a variable: none where the text is empty.
pub open spec fn value_of(s: Seq<char>) -> Option<Seq<char>> {
    if s.len() == 0 {
        None
    } else {
        Some(s)
    }
}

/// The text of a variable: its value, or the empty text.
pub open spec fn variable_text(v: VariableView) -> Seq<char> {
    match v.1 {
        Some(s) => s,
        None => Seq::empty(),
    }
}

impl HttpVariable {
    /// A variable named `name` with no value.
    pub fn new(name: String) -> (r: HttpVariable)
        ensures
            r@ == (name@, None::<Seq<char>>),
    {
        HttpVariable { name, value: None }
    }

    /// Gives the variable the value `value`, or no value where `value` is empty.
    pub fn set_value(&mut self, value: String)
        ensures
            final(self)@ == (old(self)@.0, value_of(value@)),
    {
        if value.as_str().is_empty() {
            self.value = None;
        } else {
            self.value = Some(value);
        }
    }

    /// The value of the variable, or the empty text where it has none.
    pub fn to_string(&self) -> (s: String)
        ensures
            s@ == variable_text(self@),
    {
        match &self.value {
            Some(value) => value.clone(),
            None => String::new(),
        }
    }
}

/// What an `HttpResponse` holds.
pub struct ResponseView {
    pub headers: Seq<Seq<char>>,
    pub raw: Seq<char>,
    pub status: StatusView,
    pub variables: Seq<VariableView>,
}

/// A response under construction, with the text that will be sent.
pub struct HttpResponse {
    headers: Vec<String>,
    raw_content: String,
    status: ResponseStatus,
    path_variabe: Vec<HttpVariable>,
}

/// The variables of a vector of variables.
pub open spec fn variable_views(v: Seq<HttpVariable>) -> Seq<VariableView> {
    v.map_values(|x: HttpVariable| x@)
}

/// The character sequences of a vector of strings.
pub open spec fn header_views(v: Seq<String>) -> Seq<Seq<char>> {
    v.map_values(|x: String| x@)
}

impl View for HttpResponse {
    type V = ResponseView;

    closed spec fn view(&self) -> ResponseView {
        ResponseView {
            headers: header_views(self.headers@),
            raw: self.raw_content@,
            status: self.status@,
            variables: variable_views(self.path_variabe@),
        }
    }
}

pub open spec fn crlf() -> Seq<char> {
    seq!['\r', '\n']
}

pub open spec fn status_line_start() -> Seq<char> {
    seq!['H', 'T', 'T', 'P', '/', '1', '.', '1', ' ']
}

pub open spec fn content_length_name() -> Seq<char> {
    seq!['C', 'o', 'n', 't', 'e', 'n', 't', '-', 'L', 'e', 'n', 'g', 't', 'h', ':', ' ']
}

/// The text sent for a response: the status line, the headers, a
/// `Content-Length` header counting the bytes of the content, an empty line and
/// the content.
pub open spec fn http_raw(status: StatusView, headers: Seq<Seq<char>>, content: Seq<char>) -> Seq<
    char,
> {
    status_line_start() + status_text(status) + crlf() + (if headers.len() > 0 {
        join(headers, crlf()) + crlf()
    } else {
        Seq::empty()
    }) + content_length_name() + decimal(blen(content)) + crlf() + crlf() + content
}

/// The text of the first variable named `name`, or the empty text where there is none.
pub open spec fn variable_lookup(vars: Seq<VariableView>, name: Seq<char>, i: int) -> Seq<char>
    decreases vars.len() - i,
{
    if i < 0 || i >= vars.len() {
        Seq::empty()
    } else if vars[i].0 == name {
        variable_text(vars[i])
    } else {
        variable_lookup(vars, name, i + 1)
    }
}

/// Whether a variable named `name` is among `vars`.
pub open spec fn has_variable(vars: Seq<VariableView>, name: Seq<char>) -> bool {
    exists|i: int| 0 <= i < vars.len() && vars[i].0 == name
}

/// The variables after adding `(name, value)`: a name already there keeps its
/// value; a new name is added last.
pub open spec fn add_variable_spec(vars: Seq<VariableView>, data: (Seq<char>, Seq<char>)) -> Seq<
    VariableView,
> {
    if has_variable(vars, data.0) {
        vars
    } else {
        vars.push((data.0, value_of(data.1)))
    }
}

/// A new response: status `200 OK`, no headers, nothing to send, no variables.
pub open spec fn empty_response() -> ResponseView {
    ResponseView {
        headers: Seq::empty(),
        raw: Seq::empty(),
        status: StatusView::OK,
        variables: Seq::empty(),
    }
}

/// `v` followed by the characters of `s`.
fn push_str(v: &mut Vec<char>, s: &str)
    ensures
        final(v)@ == old(v)@ + s@,
{
    let c = chars_of(s);
    let r = concat_chars(v, &c);
    *v = r;
}

impl HttpResponse {
    /// A new response.
    pub fn new() -> (r: HttpResponse)
        ensures
            r@ == empty_response(),
    {
        let r = HttpResponse {
            status: ResponseStatus::OK,
            headers: Vec::new(),
            raw_content: String::new(),
            path_variabe: Vec::new(),
        };
        assert(r@.headers =~= Seq::<Seq<char>>::empty());
        assert(r@.variables =~= Seq::<VariableView>::empty());
        r
    }

    /// Sends the text of `http_file`; a file whose bytes are not UTF-8 leaves the
    /// response as it is.
    pub fn send_file(&mut self, http_file: &Arc<HttpFile>)
        ensures
            match http_file@.text {
                Some(t) => final(self)@ == (ResponseView {
                    raw: http_raw(old(self)@.status, old(self)@.headers, t),
                    ..old(self)@
                }),
                None => final(self)@ == old(self)@,
            },
    {
        if let Some(content) = http_file.get_string_content() {
            self.set_http_raw(content);
        }
    }

    /// Sends `temp_content`.
    pub fn send(&mut self, temp_content: String)
        ensures
            final(self)@ == (ResponseView {
                raw: http_raw(old(self)@.status, old(self)@.headers, temp_content@),
                ..old(self)@
            }),
    {
        self.set_http_raw(&temp_content);
    }

    pub fn set_status(&mut self, status: ResponseStatus)
        ensures
            final(self)@ == (ResponseView { status: status@, ..old(self)@ }),
    {
        self.status = status;
    }

    pub fn add_header(&mut self, header: String)
        ensures
            final(self)@ == (ResponseView { headers: old(self)@.headers.push(header@), ..old(self)@ }),
    {
        let ghost before = self.headers@;
        self.headers.push(header);
        assert(header_views(self.headers@) =~= header_views(before).push(header@));
    }

    /// Frames `content` with the current status and headers into the text to send.
    pub fn set_http_raw(&mut self, content: &String)
        ensures
            final(self)@ == (ResponseView {
                raw: http_raw(old(self)@.status, old(self)@.headers, content@),
                ..old(self)@
            }),
    {
        proof {
            reveal_strlit("HTTP/1.1 ");
            reveal_strlit("\r\n");
            reveal_strlit("Content-Length: ");
            reveal_strlit("\r\n\r\n");
            assert("HTTP/1.1 "@ =~= status_line_start());
            assert("\r\n"@ =~= crlf());
            assert("Content-Length: "@ =~= content_length_name());
            assert("\r\n\r\n"@ =~= crlf() + crlf());
        }
        let ghost hv = header_views(self.headers@);
        let mut raw: Vec<char> = Vec::new();
        push_str(&mut raw, "HTTP/1.1 ");
        let status = self.status.to_string();
        push_str(&mut raw, status.as_str());
        push_str(&mut raw, "\r\n");
        let ghost after_status = raw@;
        assert(after_status =~= status_line_start() + status_text(self.status@) + crlf());
        if self.headers.len() > 0 {
            let mut hs: Vec<Vec<char>> = Vec::new();
            let mut i: usize = 0;
            while i < self.headers.len()
                invariant
                    i <= self.headers.len(),
                    hv == header_views(self.headers@),
                    views(hs@) == hv.take(i as int),
                decreases self.headers.len() - i,
            {
                let h = chars_of(self.headers[i].as_str());
                let ghost before = hs@;
                hs.push(h);
                assert(views(hs@) =~= views(before).push(h@));
                i += 1;
                assert(views(hs@) =~= hv.take(i as int));
            }
            assert(hv.take(self.headers.len() as int) =~= hv);
            let sep: Vec<char> = vec!['\r', '\n'];
            assert(sep@ =~= crlf());
            let joined = join_exec(&hs, &sep);
            raw = concat_chars(&raw, &joined);
            push_str(&mut raw, "\r\n");
            assert(raw@ =~= after_status + (join(hv, crlf()) + crlf()));
        } else {
            assert(raw@ =~= after_status + Seq::<char>::empty());
        }
        let ghost after_headers = raw@;
        push_str(&mut raw, "Content-Length: ");
        let content_bytes: usize = content.as_str().as_bytes().len();
        let len = decimal_string(content_bytes);
        push_str(&mut raw, len.as_str());
        push_str(&mut raw, "\r\n\r\n");
        push_str(&mut raw, content.as_str());
        assert(len@ == decimal(blen(content@)));
        assert(raw@ =~= after_headers + content_length_name() + decimal(blen(content@)) + crlf()
            + crlf() + content@);
        assert(raw@ =~= http_raw(self.status@, hv, content@));
        self.raw_content = string_of(&raw);
    }

    /// The text to send.
    pub fn get_http_raw(&self) -> (r: &String)
        ensures
            r@ == self@.raw,
    {
        &self.raw_content
    }

    /// The value of the variable named `variable_name`, or the empty text.
    pub fn get_variable(&self, variable_name: String) -> (r: String)
        ensures
            r@ == variable_lookup(self@.variables, variable_name@, 0),
    {
        let ghost vars = self@.variables;
        let mut i: usize = 0;
        while i < self.path_variabe.len()
            invariant
                i <= self.path_variabe.len(),
                vars == variable_views(self.path_variabe@),
                vars == self@.variables,
                variable_lookup(vars, variable_name@, 0) == variable_lookup(
                    vars,
                    variable_name@,
                    i as int,
                ),
            decreases self.path_variabe.len() - i,
        {
            let variable = &self.path_variabe[i];
            assert(vars[i as int] == variable@);
            if variable.name.eq(&variable_name) {
                return variable.to_string();
            }
            i += 1;
        }
        String::new()
    }

    /// Adds the variable `data.0` with the value `data.1`, unless a variable of that
    /// name is already there.
    pub fn add_variabe(&mut self, data: (String, String))
        ensures
            final(self)@ == (ResponseView {
                variables: add_variable_spec(old(self)@.variables, (data.0@, data.1@)),
                ..old(self)@
            }),
    {
        let ghost vars = self@.variables;
        let mut i: usize = 0;
        while i < self.path_variabe.len()
            invariant
                i <= self.path_variabe.len(),
                vars == variable_views(self.path_variabe@),
                forall|j: int| 0 <= j < i ==> vars[j].0 != data.0@,
            decreases self.path_variabe.len() - i,
        {
            assert(vars[i as int] == self.path_variabe[i as int]@);
            if self.path_variabe[i].name.eq(&data.0) {
                assert(has_variable(vars, data.0@));
                return;
            }
            i += 1;
        }
        let (name, value) = data;
        let mut http_variable = HttpVariable::new(name);
        http_variable.set_value(value);
        self.path_variabe.push(http_variable);
        assert(variable_views(self.path_variabe@) =~= vars.push((data.0@, value_of(data.1@))));
    }
}

/// A value read back after it was added under a new name is the value added; an
/// empty value reads back as the empty text.
pub proof fn law_variable_read_after_add(vars: Seq<VariableView>, name: Seq<char>, value: Seq<char>)
    requires
        !has_variable(vars, name),
    ensures
        variable_lookup(add_variable_spec(vars, (name, value)), name, 0) == value,
{
    let vs = add_variable_spec(vars, (name, value));
    assert(vs == vars.push((name, value_of(value))));
    lemma_lookup_absent_prefix(vs, name, 0, vars.len() as int);
    if value.len() == 0 {
        assert(value =~= Seq::<char>::empty());
    }
}

/// The first value added under a name stays: adding the name again changes nothing.
pub proof fn law_variable_first_wins(vars: Seq<VariableView>, name: Seq<char>, v1: Seq<char>, v2: Seq<char>)
    ensures
        add_variable_spec(add_variable_spec(vars, (name, v1)), (name, v2)) == add_variable_spec(
            vars,
            (name, v1),
        ),
{
    let vs = add_variable_spec(vars, (name, v1));
    if !has_variable(vars, name) {
        assert(vs[vars.len() as int].0 == name);
    } else {
        let i = choose|i: int| 0 <= i < vars.len() && vars[i].0 == name;
        assert(vs[i].0 == name);
    }
}

/// Looking a name up from `i` skips the entries before `k` that do not carry it.
proof fn lemma_lookup_absent_prefix(vars: Seq<VariableView>, name: Seq<char>, i: int, k: int)
    requires
        0 <= i <= k < vars.len(),
        forall|j: int| i <= j < k ==> vars[j].0 != name,
        vars[k].0 == name,
    ensures
        variable_lookup(vars, name, i) == variable_text(vars[k]),
    decreases k - i,
{
    if i < k {
        lemma_lookup_absent_prefix(vars, name, i + 1, k);
    }
}


/// The text sent for a response begins with `HTTP/1.1 `, the status and a line
/// break, and ends with the content that was sent.
pub proof fn law_raw_frames_content(st: StatusView, hs: Seq<Seq<char>>, c: Seq<char>)
    ensures
        starts_with(http_raw(st, hs, c), status_line_start() + status_text(st) + crlf()),
        ends_with(http_raw(st, hs, c), c),
{
    let raw = http_raw(st, hs, c);
    let head = status_line_start() + status_text(st) + crlf();
    let rest = (if hs.len() > 0 {
        join(hs, crlf()) + crlf()
    } else {
        Seq::empty()
    }) + content_length_name() + decimal(blen(c)) + crlf() + crlf();
    assert(raw =~= head + rest + c);
    assert(raw.take(head.len() as int) =~= head);
    assert(raw.skip(raw.len() - c.len()) =~= c);
}


/// The value of the first pair in `vs` named `name`, or the empty text.
pub open spec fn first_value(vs: Seq<(Seq<char>, Seq<char>)>, name: Seq<char>) -> Seq<char>
    decreases vs.len(),
{
    if vs.len() == 0 {
        Seq::empty()
    } else if vs[0].0 == name {
        vs[0].1
    } else {
        first_value(vs.drop_first(), name)
    }
}

/// Looking up a name that no entry from `i` on carries gives the empty text.
pub proof fn lemma_lookup_absent(vars: Seq<VariableView>, name: Seq<char>, i: int)
    requires
        0 <= i,
        forall|j: int| i <= j < vars.len() ==> vars[j].0 != name,
    ensures
        variable_lookup(vars, name, i) == Seq::<char>::empty(),
    decreases vars.len() - i,
{
    if i < vars.len() {
        lemma_lookup_absent(vars, name, i + 1);
    }
}

/// Looking a name up after one more variable is appended.
pub proof fn lemma_lookup_push(vars: Seq<VariableView>, x: VariableView, name: Seq<char>, i: int)
    requires
        0 <= i <= vars.len(),
    ensures
        variable_lookup(vars.push(x), name, i) == (if exists|j: int|
            i <= j < vars.len() && vars[j].0 == name {
            variable_lookup(vars, name, i)
        } else if x.0 == name {
            variable_text(x)
        } else {
            Seq::<char>::empty()
        }),
    decreases vars.len() - i,
{
    let vs = vars.push(x);
    if i == vars.len() {
        assert(vs[i] == x);
        assert(variable_lookup(vs, name, i + 1) == Seq::<char>::empty());
    } else {
        assert(vs[i] == vars[i]);
        lemma_lookup_push(vars, x, name, i + 1);
        if vars[i].0 != name {
            assert((exists|j: int| i <= j < vars.len() && vars[j].0 == name) == (exists|j: int|
                i + 1 <= j < vars.len() && vars[j].0 == name));
        }
    }
}

/// The first value of a name after one more pair is appended.
pub proof fn lemma_first_value_push(
    s: Seq<(Seq<char>, Seq<char>)>,
    x: (Seq<char>, Seq<char>),
    name: Seq<char>,
)
    ensures
        first_value(s.push(x), name) == (if exists|j: int| 0 <= j < s.len() && s[j].0 == name {
            first_value(s, name)
        } else if x.0 == name {
            x.1
        } else {
            Seq::<char>::empty()
        }),
    decreases s.len(),
{
    let t = s.push(x);
    if s.len() == 0 {
        assert(t[0] == x);
        assert(t.drop_first() =~= Seq::<(Seq<char>, Seq<char>)>::empty());
        assert(first_value(t.drop_first(), name) == Seq::<char>::empty());
    } else {
        assert(t[0] == s[0]);
        if s[0].0 == name {
            assert(exists|j: int| 0 <= j < s.len() && s[j].0 == name);
        }
        assert(t.drop_first() =~= s.drop_first().push(x));
        lemma_first_value_push(s.drop_first(), x, name);
        if s[0].0 != name {
            assert((exists|j: int| 0 <= j < s.len() && s[j].0 == name) == (exists|j: int|
                0 <= j < s.drop_first().len() && s.drop_first()[j].0 == name)) by {
                if exists|j: int| 0 <= j < s.len() && s[j].0 == name {
                    let j = choose|j: int| 0 <= j < s.len() && s[j].0 == name;
                    assert(s.drop_first()[j - 1] == s[j]);
                }
                if exists|j: int| 0 <= j < s.drop_first().len() && s.drop_first()[j].0 == name {
                    let j = choose|j: int|
                        0 <= j < s.drop_first().len() && s.drop_first()[j].0 == name;
                    assert(s[j + 1] == s.drop_first()[j]);
                }
            }
        }
    }
}

/// A name carried by no pair has the empty text as first value.
pub proof fn lemma_first_value_absent(s: Seq<(Seq<char>, Seq<char>)>, name: Seq<char>)
    requires
        forall|j: int| 0 <= j < s.len() ==> s[j].0 != name,
    ensures
        first_value(s, name) == Seq::<char>::empty(),
    decreases s.len(),
{
    if s.len() > 0 {
        assert forall|j: int| 0 <= j < s.drop_first().len() implies s.drop_first()[j].0
            != name by {
            assert(s.drop_first()[j] == s[j + 1]);
        }
        lemma_first_value_absent(s.drop_first(), name);
    }
}

/// Adding a header to a response puts that header and a line break just before the
/// `Content-Length` line, after every header added earlier, and changes nothing else
/// of the text sent; that line gives the content's length in bytes, after which
/// come an empty line and the content.
pub proof fn law_raw_add_header(st: StatusView, hs: Seq<Seq<char>>, h: Seq<char>, c: Seq<char>)
    ensures
        exists|a: Seq<char>, b: Seq<char>|
            {
                &&& http_raw(st, hs, c) == a + b
                &&& http_raw(st, hs.push(h), c) == a + h + crlf() + b
                &&& b == content_length_name() + decimal(blen(c)) + crlf() + crlf() + c
            },
{
    let head = status_line_start() + status_text(st) + crlf();
    let block = if hs.len() > 0 {
        join(hs, crlf()) + crlf()
    } else {
        Seq::empty()
    };
    let a = head + block;
    let b = content_length_name() + decimal(blen(c)) + crlf() + crlf() + c;
    assert(http_raw(st, hs, c) =~= a + b);
    law_join_parts(hs, h, crlf());
    if hs.len() == 0 {
        assert(hs.push(h) =~= seq![h]);
        assert(join(hs.push(h), crlf()) + crlf() =~= block + h + crlf());
    } else {
        assert(join(hs.push(h), crlf()) + crlf() =~= block + h + crlf());
    }
    assert(http_raw(st, hs.push(h), c) =~= a + h + crlf() + b);
}

} // verus!
