//! Parsing the .ulib markup into a widget tree.
use vstd::prelude::*;

use crate::text::{
    char_is_whitespace, chars_of, concat3, eq_lit, find_char, find_from, is_white_space,
    lemma_find_from, lowercase, push_chars, slice_of, string_from, to_lowercase, trim, trim_chars,
};
use crate::ui::widget::{Layout, Widget, WidgetModel, lemma_widgets_model, widgets_model};

verus! {

/// A parsed module: an optional stylesheet path and the root container.
pub struct Module {
    pub style_file: Option<String>,
    pub root: Widget,
}

/// What a module is, with its texts as character sequences.
pub struct ModuleModel {
    pub style_file: Option<Seq<char>>,
    pub root: WidgetModel,
}

impl View for Module {
    type V = ModuleModel;

    open spec fn view(&self) -> ModuleModel {
        ModuleModel {
            style_file: match self.style_file {
                Some(s) => Some(s@),
                None => None,
            },
            root: self.root@,
        }
    }
}

// ---------------------------------------------------------------------------
// Tokens
// ---------------------------------------------------------------------------
/// The characters that end an identifier besides white space.
pub open spec fn is_delimiter(c: char) -> bool {
    c == '(' || c == ')' || c == '<' || c == ',' || c == '>'
}

/// End of the identifier that starts at `k`.
pub open spec fn ident_end(s: Seq<char>, k: int) -> int
    decreases s.len() - k,
{
    if k < 0 || k >= s.len() || is_delimiter(s[k]) || is_white_space(s[k]) {
        k
    } else {
        ident_end(s, k + 1)
    }
}

/// The contents of a string literal whose first character is at `k`, with a
/// backslash taking the next character literally, and the position of the
/// closing quote (or the end of the input).
pub open spec fn string_literal(s: Seq<char>, k: int) -> (Seq<char>, int)
    decreases s.len() - k,
{
    if k < 0 || k >= s.len() || s[k] == '"' {
        (Seq::empty(), k)
    } else if s[k] == '\\' && k + 1 < s.len() {
        let (rest, e) = string_literal(s, k + 2);
        (seq![s[k + 1]] + rest, e)
    } else {
        let (rest, e) = string_literal(s, k + 1);
        (seq![s[k]] + rest, e)
    }
}

pub proof fn lemma_string_literal(s: Seq<char>, k: int)
    requires
        0 <= k <= s.len(),
    ensures
        k <= string_literal(s, k).1 <= s.len(),
    decreases s.len() - k,
{
    if k < s.len() && s[k] != '"' {
        if s[k] == '\\' && k + 1 < s.len() {
            lemma_string_literal(s, k + 2);
        } else {
            lemma_string_literal(s, k + 1);
        }
    }
}

pub proof fn lemma_ident_end(s: Seq<char>, k: int)
    requires
        0 <= k <= s.len(),
    ensures
        k <= ident_end(s, k) <= s.len(),
        forall|j: int| k <= j < ident_end(s, k) ==> !is_delimiter(s[j]) && !is_white_space(s[j]),
    decreases s.len() - k,
{
    if k < s.len() && !is_delimiter(s[k]) && !is_white_space(s[k]) {
        lemma_ident_end(s, k + 1);
    }
}

/// `t` in front of the tokens `rest`, when there are any.
pub open spec fn prepend(t: Seq<char>, rest: Option<Seq<Seq<char>>>) -> Option<Seq<Seq<char>>> {
    match rest {
        Some(ts) => Some(seq![t] + ts),
        None => None,
    }
}

/// The tokens of `s` from position `i` on. `None` when a `>` stands where a
/// token would begin: it closes no `<` tag, and the markup is refused.
pub open spec fn tokens_from(s: Seq<char>, i: int) -> Option<Seq<Seq<char>>>
    decreases s.len() + 1 - i,
{
    if i < 0 || i >= s.len() {
        Some(Seq::empty())
    } else {
        let c = s[i];
        if is_white_space(c) {
            tokens_from(s, i + 1)
        } else if c == '<' {
            let e = find_from(s, '>', i + 1);
            proof {
                lemma_find_from(s, '>', i + 1);
            }
            let tok = seq!['<'] + lowercase(trim(s.subrange(i + 1, e))) + seq!['>'];
            prepend(tok, tokens_from(s, e + 1))
        } else if c == '(' || c == ')' || c == ',' {
            prepend(seq![c], tokens_from(s, i + 1))
        } else if c == '"' {
            let (lit, e) = string_literal(s, i + 1);
            proof {
                lemma_string_literal(s, i + 1);
            }
            prepend(lit, tokens_from(s, e + 1))
        } else if c == '>' {
            None
        } else {
            let e = ident_end(s, i);
            proof {
                lemma_ident_end(s, i + 1);
                assert(e == ident_end(s, i + 1));
            }
            prepend(s.subrange(i, e), tokens_from(s, e))
        }
    }
}

/// The tokens of `src`, unless it holds a `>` that closes no tag.
pub open spec fn tokenize_spec(src: Seq<char>) -> Option<Seq<Seq<char>>> {
    tokens_from(src, 0)
}

/// `done` followed by the tokens `rest`, when there are any.
pub open spec fn after(done: Seq<Seq<char>>, rest: Option<Seq<Seq<char>>>) -> Option<
    Seq<Seq<char>>,
> {
    match rest {
        Some(ts) => Some(done + ts),
        None => None,
    }
}

/// The character sequences of a list of character vectors.
pub open spec fn chars_list(v: Seq<Vec<char>>) -> Seq<Seq<char>> {
    v.map_values(|t: Vec<char>| t@)
}

fn string_literal_at(s: &[char], k: usize) -> (r: (Vec<char>, usize))
    requires
        k <= s@.len(),
    ensures
        r.0@ == string_literal(s@, k as int).0,
        r.1 == string_literal(s@, k as int).1,
{
    let mut out: Vec<char> = Vec::new();
    let mut i = k;
    while i < s.len() && s[i] != '"'
        invariant
            k <= i <= s@.len(),
            string_literal(s@, k as int) == (out@ + string_literal(s@, i as int).0, string_literal(
                s@,
                i as int,
            ).1),
        decreases s@.len() - i,
    {
        let ghost old_out = out@;
        let ghost old_i = i;
        if s[i] == '\\' && i + 1 < s.len() {
            i = i + 1;
        }
        out.push(s[i]);
        i = i + 1;
        proof {
            let (rest, e) = string_literal(s@, i as int);
            assert(string_literal(s@, old_i as int) == (seq![s@[i - 1]] + rest, e));
            assert(old_out + (seq![s@[i - 1]] + rest) =~= out@ + rest);
        }
    }
    assert(out@ + Seq::<char>::empty() =~= out@);
    (out, i)
}

/// Read the characters of the markup into tokens; `None` at a `>` that
/// closes no tag.
fn tokenize(src: &[char]) -> (r: Option<Vec<Vec<char>>>)
    ensures
        match r {
            Some(tokens) => tokenize_spec(src@) == Some(chars_list(tokens@)),
            None => tokenize_spec(src@) is None,
        },
{
    let mut tokens: Vec<Vec<char>> = Vec::new();
    let n = src.len();
    let mut i: usize = 0;
    while i < n
        invariant
            n == src@.len(),
            i <= n,
            tokenize_spec(src@) == after(chars_list(tokens@), tokens_from(src@, i as int)),
        decreases n - i,
    {
        let ghost done = chars_list(tokens@);
        let c = src[i];
        if char_is_whitespace(c) {
            i = i + 1;
            continue ;
        }
        if c == '>' {
            return None;
        }
        if c == '<' {
            // Read the block tag: <HBOX> or </HBOX>
            let e = find_char(src, '>', i + 1);
            proof {
                lemma_find_from(src@, '>', i + 1);
            }
            let tag = slice_of(src, i + 1, e);
            let tag_t = trim_chars(&tag);
            let lower = to_lowercase(&tag_t);
            let mut tok: Vec<char> = Vec::new();
            tok.push('<');
            let mut j: usize = 0;
            while j < lower.len()
                invariant
                    j <= lower@.len(),
                    tok@ == seq!['<'] + lower@.subrange(0, j as int),
                decreases lower@.len() - j,
            {
                tok.push(lower[j]);
                j = j + 1;
                assert(tok@ =~= seq!['<'] + lower@.subrange(0, j as int));
            }
            tok.push('>');
            assert(tok@ =~= seq!['<'] + lowercase(trim(src@.subrange(i + 1, e as int))) + seq![
                '>',
            ]);
            tokens.push(tok);
            proof {
                assert(chars_list(tokens@) =~= done.push(tok@));
                if tokens_from(src@, e + 1) is Some {
                    assert(done + (seq![tok@] + tokens_from(src@, e + 1)->0) =~= done.push(tok@)
                        + tokens_from(src@, e + 1)->0);
                }
            }
            i = if e < n {
                e + 1
            } else {
                n
            };
            continue ;
        }
        if c == '(' || c == ')' || c == ',' {
            let tok: Vec<char> = vec![c];
            assert(tok@ =~= seq![c]);
            tokens.push(tok);
            proof {
                assert(chars_list(tokens@) =~= done.push(tok@));
                if tokens_from(src@, i + 1) is Some {
                    assert(done + (seq![tok@] + tokens_from(src@, i + 1)->0) =~= done.push(tok@)
                        + tokens_from(src@, i + 1)->0);
                }
            }
            i = i + 1;
            continue ;
        }
        if c == '"' {
            // String literal.
            let (lit, e) = string_literal_at(src, i + 1);
            proof {
                lemma_string_literal(src@, i + 1);
            }
            tokens.push(lit);
            proof {
                assert(chars_list(tokens@) =~= done.push(lit@));
                if tokens_from(src@, e + 1) is Some {
                    assert(done + (seq![lit@] + tokens_from(src@, e + 1)->0) =~= done.push(lit@)
                        + tokens_from(src@, e + 1)->0);
                }
            }
            i = if e < n {
                e + 1
            } else {
                n
            };
            continue ;
        }
        // Identifier until a delimiter.
        let mut e = i;
        while e < n && !(src[e] == '(' || src[e] == ')' || src[e] == '<' || src[e] == ','
            || src[e] == '>') && !char_is_whitespace(src[e])
            invariant
                n == src@.len(),
                i <= e <= n,
                ident_end(src@, i as int) == ident_end(src@, e as int),
            decreases n - e,
        {
            e = e + 1;
        }
        let tok = slice_of(src, i, e);
        tokens.push(tok);
        proof {
            assert(chars_list(tokens@) =~= done.push(tok@));
            if tokens_from(src@, e as int) is Some {
                    assert(done + (seq![tok@] + tokens_from(src@, e as int)->0) =~= done.push(tok@)
                        + tokens_from(src@, e as int)->0);
                }
        }
        i = e;
    }
    assert(chars_list(tokens@) + Seq::<Seq<char>>::empty() =~= chars_list(tokens@));
    Some(tokens)
}

// ---------------------------------------------------------------------------
// Parsing the token stream
// ---------------------------------------------------------------------------
/// Whether a token opens a block tag.
pub open spec fn opens_tag(t: Seq<char>) -> bool {
    t.len() > 0 && t[0] == '<'
}

/// Whether a token closes a block (`</...>`).
pub open spec fn closes_tag(t: Seq<char>) -> bool {
    t.len() >= 2 && t[0] == '<' && t[1] == '/'
}

/// `t` without its leading `c`s (`str::trim_start_matches`).
pub open spec fn strip_leading(t: Seq<char>, c: char) -> Seq<char>
    decreases t.len(),
{
    if t.len() > 0 && t[0] == c {
        strip_leading(t.drop_first(), c)
    } else {
        t
    }
}

/// `t` without its trailing `c`s (`str::trim_end_matches`).
pub open spec fn strip_trailing(t: Seq<char>, c: char) -> Seq<char>
    decreases t.len(),
{
    if t.len() > 0 && t.last() == c {
        strip_trailing(t.drop_last(), c)
    } else {
        t
    }
}

/// The name inside a block tag token.
pub open spec fn tag_name(t: Seq<char>) -> Seq<char> {
    strip_trailing(strip_leading(t, '<'), '>')
}

/// The message for an expected token `t` that did not come.
pub open spec fn expect_error(t: Seq<char>, got: Option<Seq<char>>) -> Seq<char> {
    "expected `"@ + t + "`, got `"@ + (match got {
        Some(g) => g,
        None => Seq::<char>::empty(),
    }) + "`"@
}

/// Expecting the token `t` at `pos`: the position after it, or the error.
pub open spec fn expect_at(toks: Seq<Seq<char>>, pos: int, t: Seq<char>) -> Result<int, Seq<char>> {
    if 0 <= pos < toks.len() {
        if toks[pos] == t {
            Ok(pos + 1)
        } else {
            Err(expect_error(t, Some(toks[pos])))
        }
    } else {
        Err(expect_error(t, None))
    }
}

/// The widget that starts at token `pos`, with the position after it, or the
/// error that stops the parse.
pub open spec fn parse_widget(toks: Seq<Seq<char>>, pos: int) -> Result<(WidgetModel, int), Seq<char>>
    decreases toks.len() - pos, 0int,
{
    if pos < 0 || pos >= toks.len() {
        Err("unexpected end of file"@)
    } else {
        let tok = toks[pos];
        if opens_tag(tok) {
            let tag = tag_name(tok);
            if tag == "hbox"@ || tag == "vbox"@ {
                let layout = if tag == "hbox"@ {
                    Layout::HBox
                } else {
                    Layout::VBox
                };
                match parse_children(toks, pos + 1, tag) {
                    Ok((cs, q)) => Ok((WidgetModel::Container { layout, children: cs }, q)),
                    Err(e) => Err(e),
                }
            } else {
                Err("unknown container <"@ + tag + ">"@)
            }
        } else if tok == "Style"@ {
            Err("Style() is only allowed at the top of a .ulib file"@)
        } else if tok == "Label"@ {
            match expect_at(toks, pos + 1, "("@) {
                Err(e) => Err(e),
                Ok(p1) => if p1 >= toks.len() {
                    Err("expected label text"@)
                } else {
                    match expect_at(toks, p1 + 1, ")"@) {
                        Err(e) => Err(e),
                        Ok(p3) => Ok((WidgetModel::Label { text: toks[p1] }, p3)),
                    }
                },
            }
        } else if tok == "Button"@ {
            match expect_at(toks, pos + 1, "("@) {
                Err(e) => Err(e),
                Ok(p1) => if p1 >= toks.len() {
                    Err("expected button text"@)
                } else {
                    match expect_at(toks, p1 + 1, ","@) {
                        Err(e) => Err(e),
                        Ok(p2) => if p2 >= toks.len() {
                            Err("expected button signal id"@)
                        } else {
                            match expect_at(toks, p2 + 1, ")"@) {
                                Err(e) => Err(e),
                                Ok(p3) => Ok(
                                    (
                                        WidgetModel::Button {
                                            text: toks[p1],
                                            signal: Some(toks[p2]),
                                        },
                                        p3,
                                    ),
                                ),
                            }
                        },
                    }
                },
            }
        } else {
            Err("unknown directive `"@ + tok + "`"@)
        }
    }
}

/// The children of a container whose tag `tag` was read, from token `pos` up to
/// and including the closing tag, with the position after it.
pub open spec fn parse_children(toks: Seq<Seq<char>>, pos: int, tag: Seq<char>) -> Result<
    (Seq<WidgetModel>, int),
    Seq<char>,
>
    decreases toks.len() - pos, 1int,
{
    if pos < 0 || pos >= toks.len() {
        Err("unclosed <"@ + tag + ">"@)
    } else if closes_tag(toks[pos]) {
        Ok((Seq::empty(), pos + 1))
    } else {
        match parse_widget(toks, pos) {
            Err(e) => Err(e),
            Ok((w, q)) => if pos < q <= toks.len() {
                match parse_children(toks, q, tag) {
                    Ok((cs, r)) => Ok((seq![w] + cs, r)),
                    Err(e) => Err(e),
                }
            } else {
                Err(Seq::empty())
            },
        }
    }
}

/// Every widget and every child list that parses takes up at least one token.
pub proof fn lemma_parse_advances(toks: Seq<Seq<char>>, pos: int, tag: Seq<char>)
    ensures
        parse_widget(toks, pos) matches Ok((_, q)) ==> pos < q <= toks.len(),
        parse_children(toks, pos, tag) matches Ok((_, q)) ==> pos < q <= toks.len(),
    decreases toks.len() - pos,
{
    if 0 <= pos < toks.len() {
        let tok = toks[pos];
        if opens_tag(tok) {
            lemma_parse_advances(toks, pos + 1, tag_name(tok));
        }
        if !closes_tag(toks[pos]) {
            if let Ok((w, q)) = parse_widget(toks, pos) {
                if pos < q <= toks.len() {
                    lemma_parse_advances(toks, q, tag);
                }
            }
        }
    }
}

/// The module read from token `pos` on, given the stylesheet path and the top
/// level widgets read so far. A later `Style(...)` replaces an earlier one.
pub open spec fn parse_top(
    toks: Seq<Seq<char>>,
    pos: int,
    style: Option<Seq<char>>,
    children: Seq<WidgetModel>,
) -> Result<ModuleModel, Seq<char>>
    decreases toks.len() - pos,
{
    if pos < 0 || pos >= toks.len() {
        Ok(
            ModuleModel {
                style_file: style,
                root: WidgetModel::Container { layout: Layout::VBox, children },
            },
        )
    } else if toks[pos] == "Style"@ {
        match expect_at(toks, pos + 1, "("@) {
            Err(e) => Err(e),
            Ok(p1) => if p1 >= toks.len() {
                Err("expected style path"@)
            } else {
                match expect_at(toks, p1 + 1, ")"@) {
                    Err(e) => Err(e),
                    Ok(p3) => parse_top(toks, p3, Some(toks[p1]), children),
                }
            },
        }
    } else {
        match parse_widget(toks, pos) {
            Err(e) => Err(e),
            Ok((w, q)) => if pos < q <= toks.len() {
                parse_top(toks, q, style, children.push(w))
            } else {
                Err(Seq::empty())
            },
        }
    }
}

/// The module that markup `src` describes, or the parse error.
pub open spec fn parse_module_spec(src: Seq<char>) -> Result<ModuleModel, Seq<char>> {
    match tokenize_spec(src) {
        Some(toks) => parse_top(toks, 0, None, Seq::empty()),
        None => Err("unexpected `>` outside a tag"@),
    }
}

/// The outcome of a widget parse, as the parse spec states it.
pub open spec fn widget_outcome(r: Result<Widget, String>, pos: usize) -> Result<
    (WidgetModel, int),
    Seq<char>,
> {
    match r {
        Ok(w) => Ok((w@, pos as int)),
        Err(e) => Err(e@),
    }
}

/// `done` in front of the children of an outcome.
pub open spec fn children_after(
    done: Seq<WidgetModel>,
    r: Result<(Seq<WidgetModel>, int), Seq<char>>,
) -> Result<(Seq<WidgetModel>, int), Seq<char>> {
    match r {
        Ok((cs, q)) => Ok((done + cs, q)),
        Err(e) => Err(e),
    }
}

proof fn lemma_strip_leading_skip(s: Seq<char>, c: char, i: int)
    requires
        0 <= i <= s.len(),
        forall|k: int| 0 <= k < i ==> #[trigger] s[k] == c,
    ensures
        strip_leading(s, c) == strip_leading(s.subrange(i, s.len() as int), c),
    decreases i,
{
    if i > 0 {
        lemma_strip_leading_skip(s.drop_first(), c, i - 1);
        assert(s.drop_first().subrange(i - 1, s.drop_first().len() as int) =~= s.subrange(
            i,
            s.len() as int,
        ));
    } else {
        assert(s.subrange(0, s.len() as int) =~= s);
    }
}

proof fn lemma_strip_trailing_skip(s: Seq<char>, c: char, j: int)
    requires
        0 <= j <= s.len(),
        forall|k: int| j <= k < s.len() ==> #[trigger] s[k] == c,
    ensures
        strip_trailing(s, c) == strip_trailing(s.subrange(0, j), c),
    decreases s.len() - j,
{
    if j < s.len() {
        lemma_strip_trailing_skip(s.drop_last(), c, j);
        assert(s.drop_last().subrange(0, j) =~= s.subrange(0, j));
    } else {
        assert(s.subrange(0, j) =~= s);
    }
}

/// The name inside a block tag token.
fn tag_of(t: &[char]) -> (r: Vec<char>)
    ensures
        r@ == tag_name(t@),
{
    let n = t.len();
    let mut a: usize = 0;
    while a < n && t[a] == '<'
        invariant
            n == t@.len(),
            a <= n,
            forall|k: int| 0 <= k < a ==> #[trigger] t@[k] == '<',
        decreases n - a,
    {
        a = a + 1;
    }
    proof {
        lemma_strip_leading_skip(t@, '<', a as int);
    }
    let ghost rest = t@.subrange(a as int, n as int);
    assert(strip_leading(rest, '<') == rest);
    let mut b: usize = n;
    while b > a && t[b - 1] == '>'
        invariant
            n == t@.len(),
            a <= b <= n,
            forall|k: int| b <= k < n ==> #[trigger] t@[k] == '>',
        decreases b,
    {
        b = b - 1;
    }
    proof {
        assert forall|k: int| b - a <= k < rest.len() implies #[trigger] rest[k] == '>' by {
            assert(rest[k] == t@[k + a]);
        }
        lemma_strip_trailing_skip(rest, '>', b - a);
        assert(rest.subrange(0, b - a) =~= t@.subrange(a as int, b as int));
        let u = t@.subrange(a as int, b as int);
        assert(u.len() == 0 || u.last() != '>');
    }
    slice_of(t, a, b)
}

struct Parser {
    tokens: Vec<Vec<char>>,
    pos: usize,
}

impl Parser {
    spec fn toks(&self) -> Seq<Seq<char>> {
        chars_list(self.tokens@)
    }

    fn peek(&self) -> (r: Option<&Vec<char>>)
        ensures
            r matches Some(t) ==> self.pos < self.tokens@.len() && t@ == self.toks()[self.pos as int],
            r is None ==> self.pos >= self.tokens@.len(),
    {
        if self.pos < self.tokens.len() {
            Some(&self.tokens[self.pos])
        } else {
            None
        }
    }

    fn next(&mut self) -> (r: Option<Vec<char>>)
        ensures
            final(self).tokens == old(self).tokens,
            old(self).pos < old(self).tokens@.len() ==> (r matches Some(t) && t@ == old(
                self,
            ).toks()[old(self).pos as int] && final(self).pos == old(self).pos + 1),
            old(self).pos >= old(self).tokens@.len() ==> r is None && final(self).pos == old(
                self,
            ).pos,
    {
        if self.pos < self.tokens.len() {
            let t = slice_of(&self.tokens[self.pos], 0, self.tokens[self.pos].len());
            assert(t@ =~= self.toks()[self.pos as int]);
            self.pos = self.pos + 1;
            Some(t)
        } else {
            None
        }
    }

    fn expect(&mut self, t: &str) -> (r: Result<(), String>)
        requires
            old(self).pos <= old(self).tokens@.len(),
        ensures
            final(self).tokens == old(self).tokens,
            old(self).pos <= final(self).pos <= final(self).tokens@.len(),
            expect_at(old(self).toks(), old(self).pos as int, t@) == (match r {
                Ok(_) => Ok(final(self).pos as int),
                Err(e) => Err(e@),
            }),
    {
        match self.next() {
            Some(x) => {
                if eq_lit(&x, t) {
                    Ok(())
                } else {
                    let mut m = String::from_str("expected `");
                    m.append(t);
                    m.append("`, got `");
                    push_chars(&mut m, &x);
                    m.append("`");
                    Err(m)
                }
            },
            None => {
                let mut m = String::from_str("expected `");
                m.append(t);
                m.append("`, got `");
                m.append("`");
                assert(m@ =~= expect_error(t@, None));
                Err(m)
            },
        }
    }

    /// Parse a single widget (leaf or container).
    fn widget(&mut self) -> (r: Result<Widget, String>)
        requires
            old(self).pos <= old(self).tokens@.len(),
        ensures
            final(self).tokens == old(self).tokens,
            final(self).pos <= final(self).tokens@.len(),
            parse_widget(old(self).toks(), old(self).pos as int) == widget_outcome(
                r,
                final(self).pos,
            ),
        decreases old(self).tokens@.len() - old(self).pos,
    {
        let ghost toks = self.toks();
        let ghost tokens0 = self.tokens;
        let ghost pos0 = self.pos as int;
        let tok = match self.next() {
            Some(t) => t,
            None => {
                return Err(String::from_str("unexpected end of file"));
            },
        };
        if tok.len() > 0 && tok[0] == '<' {
            let tag = tag_of(&tok);
            let layout = if eq_lit(&tag, "hbox") {
                Layout::HBox
            } else if eq_lit(&tag, "vbox") {
                Layout::VBox
            } else {
                return Err(concat3("unknown container <", &tag, ">"));
            };
            let mut children: Vec<Widget> = Vec::new();
            proof {
                lemma_widgets_model(children@);
                assert(widgets_model(children@) =~= Seq::<WidgetModel>::empty());
            }
            loop
                invariant
                    self.tokens == tokens0,
                    tokens0 == old(self).tokens,
                    toks == chars_list(tokens0@),
                    pos0 == old(self).pos,
                    pos0 < self.pos <= self.tokens@.len(),
                    0 <= pos0 < toks.len(),
                    tok@ == toks[pos0],
                    opens_tag(tok@),
                    tag@ == "hbox"@ || tag@ == "vbox"@,
                    layout == (if tag@ == "hbox"@ {
                        Layout::HBox
                    } else {
                        Layout::VBox
                    }),
                    tag@ == tag_name(tok@),
                    parse_children(toks, pos0 + 1, tag@) == children_after(
                        widgets_model(children@),
                        parse_children(toks, self.pos as int, tag@),
                    ),
                decreases self.tokens@.len() - self.pos,
            {
                let closing = match self.peek() {
                    None => {
                        return Err(concat3("unclosed <", &tag, ">"));
                    },
                    Some(t) => t.len() >= 2 && t[0] == '<' && t[1] == '/',
                };
                if closing {
                    self.next();
                    proof {
                        assert(widgets_model(children@) + Seq::<WidgetModel>::empty()
                            =~= widgets_model(children@));
                    }
                    return Ok(Widget::Container { layout, children });
                }
                let ghost p = self.pos as int;
                proof {
                    lemma_parse_advances(toks, p, tag@);
                }
                let w = self.widget()?;
                proof {
                    let q = self.pos as int;
                    assert(parse_widget(toks, p) == Ok::<(WidgetModel, int), Seq<char>>((w@, q)));
                    let old_models = widgets_model(children@);
                    lemma_widgets_model(children@);
                    lemma_widgets_model(children@.push(w));
                    assert(widgets_model(children@.push(w)) =~= old_models.push(w@));
                    match parse_children(toks, q, tag@) {
                        Ok((cs, r)) => {
                            assert(old_models + (seq![w@] + cs) =~= old_models.push(w@) + cs);
                        },
                        Err(_) => {},
                    }
                }
                children.push(w);
            }
        } else if eq_lit(&tok, "Style") {
            // Style() is handled at the top level in `parse_module`.
            Err(String::from_str("Style() is only allowed at the top of a .ulib file"))
        } else if eq_lit(&tok, "Label") {
            self.expect("(")?;
            let text = match self.next() {
                Some(t) => t,
                None => {
                    return Err(String::from_str("expected label text"));
                },
            };
            self.expect(")")?;
            Ok(Widget::Label { text: string_from(&text) })
        } else if eq_lit(&tok, "Button") {
            self.expect("(")?;
            let text = match self.next() {
                Some(t) => t,
                None => {
                    return Err(String::from_str("expected button text"));
                },
            };
            self.expect(",")?;
            let signal = match self.next() {
                Some(t) => t,
                None => {
                    return Err(String::from_str("expected button signal id"));
                },
            };
            self.expect(")")?;
            Ok(Widget::Button { text: string_from(&text), signal: Some(string_from(&signal)) })
        } else {
            Err(concat3("unknown directive `", &tok, "`"))
        }
    }
}

/// The outcome of a module parse, as the parse spec states it.
pub open spec fn module_outcome(r: Result<Module, String>) -> Result<ModuleModel, Seq<char>> {
    match r {
        Ok(m) => Ok(m@),
        Err(e) => Err(e@),
    }
}

/// Parse module source into a widget tree plus an optional stylesheet path.
pub fn parse_module(src: &str) -> (r: Result<Module, String>)
    ensures
        module_outcome(r) == parse_module_spec(src@),
{
    let chars = chars_of(src);
    let tokens = match tokenize(&chars) {
        Some(t) => t,
        None => {
            return Err(String::from_str("unexpected `>` outside a tag"));
        },
    };
    let mut parser = Parser { tokens, pos: 0 };
    let ghost toks = parser.toks();
    let mut style_file: Option<String> = None;
    let mut children: Vec<Widget> = Vec::new();
    proof {
        lemma_widgets_model(children@);
        assert(widgets_model(children@) =~= Seq::<WidgetModel>::empty());
    }
    while parser.pos < parser.tokens.len()
        invariant
            parser.toks() == toks,
            tokenize_spec(src@) == Some(toks),
            parser.pos <= parser.tokens@.len(),
            parse_module_spec(src@) == parse_top(
                toks,
                parser.pos as int,
                opt_string_chars(style_file),
                widgets_model(children@),
            ),
        decreases parser.tokens@.len() - parser.pos,
    {
        let is_style = match parser.peek() {
            Some(t) => eq_lit(t, "Style"),
            None => false,
        };
        let ghost p = parser.pos as int;
        if is_style {
            parser.next();
            parser.expect("(")?;
            let path = match parser.next() {
                Some(t) => t,
                None => {
                    return Err(String::from_str("expected style path"));
                },
            };
            parser.expect(")")?;
            style_file = Some(string_from(&path));
        } else {
            proof {
                lemma_parse_advances(toks, p, Seq::empty());
            }
            let w = parser.widget()?;
            proof {
                let old_models = widgets_model(children@);
                lemma_widgets_model(children@);
                lemma_widgets_model(children@.push(w));
                assert(widgets_model(children@.push(w)) =~= old_models.push(w@));
            }
            children.push(w);
        }
    }
    let root = Widget::Container { layout: Layout::VBox, children };
    Ok(Module { style_file, root })
}

/// The characters of an optional string.
pub open spec fn opt_string_chars(o: Option<String>) -> Option<Seq<char>> {
    match o {
        Some(s) => Some(s@),
        None => None,
    }
}

/// Whatever the markup holds, a module that parses has a vertical box as its
/// root, holding the top-level widgets.
pub proof fn law_root_is_vbox(src: Seq<char>)
    ensures
        parse_module_spec(src) matches Ok(m) ==> m.root matches WidgetModel::Container {
            layout: Layout::VBox,
            ..
        },
{
    if tokenize_spec(src) is Some {
        lemma_top_root(tokenize_spec(src)->0, 0, None, Seq::empty());
    }
}

proof fn lemma_plain_literal(s: Seq<char>, k: int, e: int)
    requires
        0 <= k <= e < s.len(),
        s[e] == '"',
        forall|j: int| k <= j < e ==> s[j] != '"' && s[j] != '\\',
    ensures
        string_literal(s, k) == (s.subrange(k, e), e),
    decreases e - k,
{
    if k < e {
        lemma_plain_literal(s, k + 1, e);
        assert(seq![s[k]] + s.subrange(k + 1, e) =~= s.subrange(k, e));
    } else {
        assert(s.subrange(k, e) =~= Seq::<char>::empty());
    }
}

proof fn lemma_ident_run(s: Seq<char>, k: int, e: int)
    requires
        0 <= k <= e <= s.len(),
        forall|j: int| k <= j < e ==> !is_delimiter(s[j]) && !is_white_space(s[j]),
        e == s.len() || is_delimiter(s[e]) || is_white_space(s[e]),
    ensures
        ident_end(s, k) == e,
    decreases e - k,
{
    if k < e {
        lemma_ident_run(s, k + 1, e);
    }
}

/// A label whose text is written as a string literal gets that text whole:
/// every character between the quotes, delimiters such as `,`, `(` or `<`
/// included, as long as it holds no quote and no backslash.
pub proof fn law_label_literal_text(t: Seq<char>)
    requires
        forall|j: int| 0 <= j < t.len() ==> t[j] != '"' && t[j] != '\\',
    ensures
        parse_module_spec("Label(\""@ + t + "\")"@) == Ok::<ModuleModel, Seq<char>>(
            ModuleModel {
                style_file: None,
                root: WidgetModel::Container {
                    layout: Layout::VBox,
                    children: seq![WidgetModel::Label { text: t }],
                },
            },
        ),
{
    reveal_strlit("Label(\"");
    reveal_strlit("\")");
    reveal_strlit("Label");
    reveal_strlit("Style");
    reveal_strlit("(");
    reveal_strlit(")");
    let a = "Label(\""@;
    let b = "\")"@;
    let n = t.len() as int;
    let s = a + t + b;
    assert(a.len() == 7 && b.len() == 2);
    assert(s.len() == n + 9);
    assert(s[0] == 'L' && s[1] == 'a' && s[2] == 'b' && s[3] == 'e' && s[4] == 'l');
    assert(s[5] == '(' && s[6] == '"');
    assert(s[7 + n] == '"' && s[8 + n] == ')');
    assert forall|j: int| 7 <= j < 7 + n implies s[j] != '"' && s[j] != '\\' by {
        assert(s[j] == t[j - 7]);
    }
    lemma_ident_run(s, 0, 5);
    lemma_plain_literal(s, 7, 7 + n);
    assert(s.subrange(7, 7 + n) =~= t);
    assert(s.subrange(0, 5) =~= "Label"@);
    let toks = seq!["Label"@, seq!['('], t, seq![')']];
    assert(tokens_from(s, 9 + n) == Some(Seq::<Seq<char>>::empty()));
    assert(tokens_from(s, 8 + n) == Some(seq![seq![')']])) by {
        assert(seq![seq![')']] + Seq::<Seq<char>>::empty() =~= seq![seq![')']]);
    }
    assert(tokens_from(s, 6) == Some(seq![t, seq![')']])) by {
        assert(seq![t] + seq![seq![')']] =~= seq![t, seq![')']]);
    }
    assert(tokens_from(s, 5) == Some(seq![seq!['('], t, seq![')']])) by {
        assert(seq![seq!['(']] + seq![t, seq![')']] =~= seq![seq!['('], t, seq![')']]);
    }
    assert(tokenize_spec(s) == Some(toks)) by {
        assert(seq!["Label"@] + seq![seq!['('], t, seq![')']] =~= toks);
    }
    assert("("@ =~= seq!['(']);
    assert(")"@ =~= seq![')']);
    assert(toks[0] != "Style"@);
    assert(!opens_tag(toks[0]));
    assert(parse_widget(toks, 0) == Ok::<(WidgetModel, int), Seq<char>>((WidgetModel::Label { text: t }, 4)));
    let kids = Seq::<WidgetModel>::empty().push(WidgetModel::Label { text: t });
    assert(seq![WidgetModel::Label { text: t }] =~= kids);
    assert(parse_top(toks, 4, None, kids) == Ok::<ModuleModel, Seq<char>>(
        ModuleModel { style_file: None, root: WidgetModel::Container { layout: Layout::VBox, children: kids } },
    ));
    assert(parse_top(toks, 0, None, Seq::empty()) == parse_top(toks, 4, None, kids));
}

/// The stylesheet path of a module is the path token of its `Style(...)`
/// directive exactly, character for character: no case or other change.
pub proof fn law_style_path_kept(t: Seq<char>)
    requires
        t.len() > 0,
        t[0] != '"',
        forall|j: int| 0 <= j < t.len() ==> !is_delimiter(#[trigger] t[j]) && !is_white_space(t[j]),
    ensures
        parse_module_spec("Style("@ + t + ")"@) == Ok::<ModuleModel, Seq<char>>(
            ModuleModel {
                style_file: Some(t),
                root: WidgetModel::Container { layout: Layout::VBox, children: Seq::empty() },
            },
        ),
{
    reveal_strlit("Style(");
    reveal_strlit("Style");
    reveal_strlit("(");
    reveal_strlit(")");
    let a = "Style("@;
    let b = ")"@;
    let n = t.len() as int;
    let s = a + t + b;
    assert(a.len() == 6 && b.len() == 1);
    assert(s.len() == n + 7);
    assert(s[0] == 'S' && s[1] == 't' && s[2] == 'y' && s[3] == 'l' && s[4] == 'e');
    assert(s[5] == '(' && s[6] == t[0]);
    assert(s[6 + n] == ')');
    assert forall|j: int| 6 <= j < 6 + n implies !is_delimiter(s[j]) && !is_white_space(s[j]) by {
        assert(s[j] == t[j - 6]);
    }
    lemma_ident_run(s, 0, 5);
    lemma_ident_run(s, 6, 6 + n);
    assert(s.subrange(6, 6 + n) =~= t);
    assert(s.subrange(0, 5) =~= "Style"@);
    let toks = seq!["Style"@, seq!['('], t, seq![')']];
    assert(tokens_from(s, 7 + n) == Some(Seq::<Seq<char>>::empty()));
    assert(tokens_from(s, 6 + n) == Some(seq![seq![')']])) by {
        assert(seq![seq![')']] + Seq::<Seq<char>>::empty() =~= seq![seq![')']]);
    }
    assert(tokens_from(s, 6) == Some(seq![t, seq![')']])) by {
        assert(seq![t] + seq![seq![')']] =~= seq![t, seq![')']]);
    }
    assert(tokens_from(s, 5) == Some(seq![seq!['('], t, seq![')']])) by {
        assert(seq![seq!['(']] + seq![t, seq![')']] =~= seq![seq!['('], t, seq![')']]);
    }
    assert(tokenize_spec(s) == Some(toks)) by {
        assert(seq!["Style"@] + seq![seq!['('], t, seq![')']] =~= toks);
    }
    assert("("@ =~= seq!['(']);
    assert(")"@ =~= seq![')']);
    assert(toks[0] == "Style"@);
    assert(expect_at(toks, 1, "("@) == Ok::<int, Seq<char>>(2));
    assert(expect_at(toks, 3, ")"@) == Ok::<int, Seq<char>>(4));
    assert(parse_top(toks, 4, Some(t), Seq::empty()) == Ok::<ModuleModel, Seq<char>>(
        ModuleModel {
            style_file: Some(t),
            root: WidgetModel::Container { layout: Layout::VBox, children: Seq::empty() },
        },
    ));
    assert(parse_top(toks, 0, None, Seq::empty()) == parse_top(toks, 4, Some(t), Seq::empty()));
}

/// Whether every button in the tree `w` carries a signal.
pub open spec fn buttons_have_signals(w: WidgetModel) -> bool
    decreases w,
{
    match w {
        WidgetModel::Container { children, .. } => forall|i: int|
            0 <= i < children.len() ==> buttons_have_signals(#[trigger] children[i]),
        WidgetModel::Label { .. } => true,
        WidgetModel::Button { signal, .. } => signal is Some,
    }
}

/// Every button that the markup parser builds has a signal.
proof fn lemma_parsed_buttons(toks: Seq<Seq<char>>, pos: int, tag: Seq<char>)
    ensures
        parse_widget(toks, pos) matches Ok((w, _)) ==> buttons_have_signals(w),
        parse_children(toks, pos, tag) matches Ok((cs, _)) ==> forall|i: int|
            0 <= i < cs.len() ==> buttons_have_signals(#[trigger] cs[i]),
    decreases toks.len() - pos,
{
    if 0 <= pos < toks.len() {
        let tok = toks[pos];
        if opens_tag(tok) {
            lemma_parsed_buttons(toks, pos + 1, tag_name(tok));
        }
        if !closes_tag(tok) {
            if let Ok((w, q)) = parse_widget(toks, pos) {
                if pos < q <= toks.len() {
                    lemma_parsed_buttons(toks, q, tag);
                    if let Ok((cs, r)) = parse_children(toks, q, tag) {
                        let all = seq![w] + cs;
                        assert forall|i: int| 0 <= i < all.len() implies buttons_have_signals(
                            #[trigger] all[i],
                        ) by {
                            if i > 0 {
                                assert(all[i] == cs[i - 1]);
                            }
                        }
                    }
                }
            }
        }
    }
}

proof fn lemma_top_signals(
    toks: Seq<Seq<char>>,
    pos: int,
    style: Option<Seq<char>>,
    children: Seq<WidgetModel>,
)
    requires
        forall|i: int| 0 <= i < children.len() ==> buttons_have_signals(#[trigger] children[i]),
    ensures
        parse_top(toks, pos, style, children) matches Ok(m) ==> buttons_have_signals(m.root),
    decreases toks.len() - pos,
{
    if 0 <= pos < toks.len() {
        if toks[pos] == "Style"@ {
            if let Ok(p1) = expect_at(toks, pos + 1, "("@) {
                if p1 < toks.len() {
                    if let Ok(p3) = expect_at(toks, p1 + 1, ")"@) {
                        lemma_top_signals(toks, p3, Some(toks[p1]), children);
                    }
                }
            }
        } else if let Ok((w, q)) = parse_widget(toks, pos) {
            lemma_parsed_buttons(toks, pos, Seq::empty());
            if pos < q <= toks.len() {
                let c2 = children.push(w);
                assert forall|i: int| 0 <= i < c2.len() implies buttons_have_signals(#[trigger] c2[i]) by {
                    if i < children.len() {
                        assert(c2[i] == children[i]);
                    }
                }
                lemma_top_signals(toks, q, style, c2);
            }
        }
    }
}

/// Every button of a module that parses carries a signal, however deep it sits.
pub proof fn law_parsed_buttons_have_signals(src: Seq<char>)
    ensures
        parse_module_spec(src) matches Ok(m) ==> buttons_have_signals(m.root),
{
    if tokenize_spec(src) is Some {
        lemma_top_signals(tokenize_spec(src)->0, 0, None, Seq::empty());
    }
}

proof fn lemma_top_root(
    toks: Seq<Seq<char>>,
    pos: int,
    style: Option<Seq<char>>,
    children: Seq<WidgetModel>,
)
    ensures
        parse_top(toks, pos, style, children) matches Ok(m) ==> m.root matches WidgetModel::Container {
            layout: Layout::VBox,
            ..
        },
    decreases toks.len() - pos,
{
    if 0 <= pos < toks.len() {
        if toks[pos] == "Style"@ {
            if let Ok(p1) = expect_at(toks, pos + 1, "("@) {
                if p1 < toks.len() {
                    if let Ok(p3) = expect_at(toks, p1 + 1, ")"@) {
                        lemma_top_root(toks, p3, Some(toks[p1]), children);
                    }
                }
            }
        } else if let Ok((w, q)) = parse_widget(toks, pos) {
            if pos < q <= toks.len() {
                lemma_top_root(toks, q, style, children.push(w));
            }
        }
    }
}

} // verus!
