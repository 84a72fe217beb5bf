//! A tiny CSS subset for styling widgets.
//!
//! Supported selectors: `button`, `label`, `hbox`, `vbox`, `window`, `*`.
//! Supported properties:
//!   background: #rrggbb;
//!   color: #rrggbb;         (text color)
//!   border-color: #rrggbb;
//!   border-size: <n>;
//!   padding: <n>;
//!   margin: <n>;
//!   align: left | center | right;   (text alignment)
//!
//! Example:
//!   button {
//!       background: #2266aa;
//!       color: #ffffff;
//!   }
use vstd::prelude::*;

use crate::text::{
    chars_of, contains_char, eq_chars, eq_lit, find_char, find_from, last_index_of, lemma_find_from,
    digit_value, digits_value, lemma_find_exact, lemma_trim_start_concat, lemma_trim_start_idem, lemma_trim_start_suffix,
    trim_end, trim_start, lemma_digits_all, lemma_digits_bound, lemma_digits_some, lines, lines_of, lowercase, parse_u32_radix,
    parse_unsigned, radix_pow, rfind_char, slice_of, split_chars, string_from,
    split_on, to_lowercase, trim, trim_chars, is_white_space, lines_from, split_from,
};

verus! {

/// Horizontal alignment of a label's text.
#[derive(Clone, Copy, PartialEq, Eq, Structural, Debug)]
pub enum Align {
    Left,
    Center,
    Right,
}

/// The resolved look of one widget.
#[derive(Clone, Copy, Debug)]
pub struct Style {
    pub background: u32,
    pub color: u32,
    pub border_color: u32,
    pub border_size: u32,
    pub padding: u32,
    pub margin: u32,
    pub align: Align,
}

/// The style every widget starts from.
pub open spec fn default_style() -> Style {
    Style {
        background: 0x000000,
        color: 0xffffff,
        border_color: 0x888888,
        border_size: 1,
        padding: 4,
        margin: 2,
        align: Align::Center,
    }
}

impl Default for Style {
    fn default() -> (s: Self)
        ensures
            s == default_style(),
    {
        Style {
            background: 0x000000,
            color: 0xffffff,
            border_color: 0x888888,
            border_size: 1,
            padding: 4,
            margin: 2,
            align: Align::Center,
        }
    }
}

/// Whether `i` is the first position of `entries` whose key is `k`.
pub open spec fn is_first_key(entries: Seq<(Seq<char>, Style)>, k: Seq<char>, i: int) -> bool {
    &&& 0 <= i < entries.len()
    &&& entries[i].0 == k
    &&& forall|j: int| 0 <= j < i ==> entries[j].0 != k
}

/// The map that a list of (key, style) entries stands for: a key maps to the
/// style of its first entry.
pub open spec fn entries_map(entries: Seq<(Seq<char>, Style)>) -> Map<Seq<char>, Style> {
    Map::new(
        |k: Seq<char>| exists|i: int| 0 <= i < entries.len() && entries[i].0 == k,
        |k: Seq<char>| entries[choose|i: int| is_first_key(entries, k, i)].1,
    )
}

proof fn lemma_first_key_unique(entries: Seq<(Seq<char>, Style)>, k: Seq<char>, i: int, j: int)
    requires
        is_first_key(entries, k, i),
        is_first_key(entries, k, j),
    ensures
        i == j,
{
    if i < j {
        assert(entries[i].0 == k);
    } else if j < i {
        assert(entries[j].0 == k);
    }
}

proof fn lemma_entries_map_at(entries: Seq<(Seq<char>, Style)>, k: Seq<char>, i: int)
    requires
        is_first_key(entries, k, i),
    ensures
        entries_map(entries).contains_key(k),
        entries_map(entries)[k] == entries[i].1,
{
    let m = entries_map(entries);
    assert(m.dom().contains(k));
    let c = choose|c: int| is_first_key(entries, k, c);
    lemma_first_key_unique(entries, k, i, c);
}

/// A stylesheet: styles keyed by (lowercased) selector.
pub struct StyleSheet {
    entries: Vec<(Vec<char>, Style)>,
}

impl View for StyleSheet {
    type V = Map<Seq<char>, Style>;

    closed spec fn view(&self) -> Map<Seq<char>, Style> {
        entries_map(self.entries_view())
    }
}

/// Whether no key occurs twice among `entries`.
pub open spec fn keys_distinct(entries: Seq<(Seq<char>, Style)>) -> bool {
    forall|i: int, j: int|
        0 <= i < j < entries.len() ==> #[trigger] entries[i].0 != #[trigger] entries[j].0
}

/// With distinct keys, every entry is the first of its key.
proof fn lemma_distinct_first(entries: Seq<(Seq<char>, Style)>, i: int)
    requires
        keys_distinct(entries),
        0 <= i < entries.len(),
    ensures
        is_first_key(entries, entries[i].0, i),
{
}

/// With distinct keys the map has one key per entry.
proof fn lemma_entries_map_len(entries: Seq<(Seq<char>, Style)>)
    requires
        keys_distinct(entries),
    ensures
        entries_map(entries).dom().finite(),
        entries_map(entries).dom().len() == entries.len(),
    decreases entries.len(),
{
    if entries.len() == 0 {
        assert(entries_map(entries).dom() =~= Set::<Seq<char>>::empty());
    } else {
        let pre = entries.drop_last();
        let (k, st) = entries.last();
        assert(keys_distinct(pre)) by {
            assert forall|i: int, j: int| 0 <= i < j < pre.len() implies pre[i].0 != pre[j].0 by {
                assert(pre[i] == entries[i] && pre[j] == entries[j]);
            }
        }
        lemma_entries_map_len(pre);
        assert(!entries_map(pre).contains_key(k)) by {
            if entries_map(pre).contains_key(k) {
                let j = choose|j: int| 0 <= j < pre.len() && pre[j].0 == k;
                assert(entries[j].0 == entries[entries.len() - 1].0);
            }
        }
        lemma_entries_map_push(pre, k, st);
        assert(pre.push((k, st)) =~= entries);
    }
}

impl StyleSheet {
    /// The entries as (key, style) pairs.
    closed spec fn entries_view(&self) -> Seq<(Seq<char>, Style)> {
        self.entries@.map_values(|e: (Vec<char>, Style)| (e.0@, e.1))
    }

    /// No selector is stored twice.
    #[verifier::type_invariant]
    closed spec fn no_duplicate_keys(&self) -> bool {
        keys_distinct(self.entries_view())
    }

    /// The number of selectors that have an entry.
    pub fn len(&self) -> (n: usize)
        ensures
            n == self@.len(),
    {
        proof {
            use_type_invariant(self);
            lemma_entries_map_len(self.entries_view());
        }
        self.entries.len()
    }

    /// Every (selector, style) entry of the sheet, each selector once.
    pub fn entries(&self) -> (r: Vec<(String, Style)>)
        ensures
            r@.len() == self@.len(),
            forall|i: int|
                0 <= i < r@.len() ==> self@.contains_key(#[trigger] r@[i].0@) && self@[r@[i].0@]
                    == r@[i].1,
            forall|i: int, j: int| 0 <= i < j < r@.len() ==> #[trigger] r@[i].0@ != #[trigger] r@[j].0@,
            forall|k: Seq<char>| #[trigger]
                self@.contains_key(k) ==> exists|i: int| 0 <= i < r@.len() && r@[i].0@ == k,
    {
        proof {
            use_type_invariant(self);
            lemma_entries_map_len(self.entries_view());
        }
        let ghost es = self.entries_view();
        let mut r: Vec<(String, Style)> = Vec::new();
        let mut i: usize = 0;
        while i < self.entries.len()
            invariant
                i <= self.entries@.len(),
                es == self.entries_view(),
                keys_distinct(es),
                r@.len() == i,
                forall|j: int| 0 <= j < i ==> #[trigger] r@[j].0@ == es[j].0 && r@[j].1 == es[j].1,
            decreases self.entries@.len() - i,
        {
            let k = string_from(&self.entries[i].0);
            r.push((k, self.entries[i].1));
            i = i + 1;
        }
        proof {
            assert forall|i: int|
                0 <= i < r@.len() implies self@.contains_key(#[trigger] r@[i].0@) && self@[r@[i].0@]
                == r@[i].1 by {
                lemma_distinct_first(es, i);
                lemma_entries_map_at(es, es[i].0, i);
            }
            assert forall|i: int, j: int| 0 <= i < j < r@.len() implies #[trigger] r@[i].0@
                != #[trigger] r@[j].0@ by {
                assert(es[i].0 != es[j].0);
            }
            assert forall|k: Seq<char>| #[trigger]
                self@.contains_key(k) implies exists|i: int| 0 <= i < r@.len() && r@[i].0@ == k by {
                let j = choose|j: int| 0 <= j < es.len() && es[j].0 == k;
                assert(r@[j].0@ == k);
            }
        }
        r
    }

    /// An empty stylesheet.
    pub fn new() -> (s: Self)
        ensures
            s@ == Map::<Seq<char>, Style>::empty(),
    {
        let s = StyleSheet { entries: Vec::new() };
        assert(s@ =~= Map::<Seq<char>, Style>::empty());
        s
    }

    fn find(&self, key: &[char]) -> (r: Option<usize>)
        ensures
            r matches Some(i) ==> is_first_key(self.entries_view(), key@, i as int),
            r is None ==> !self@.contains_key(key@),
    {
        let ghost es = self.entries_view();
        let mut i: usize = 0;
        while i < self.entries.len()
            invariant
                i <= self.entries@.len(),
                es == self.entries_view(),
                es.len() == self.entries@.len(),
                forall|j: int| 0 <= j < i ==> es[j].0 != key@,
            decreases self.entries@.len() - i,
        {
            assert(es[i as int].0 == self.entries@[i as int].0@);
            if eq_chars(&self.entries[i].0, key) {
                return Some(i);
            }
            i = i + 1;
        }
        None
    }

    /// The style stored under `key`, by characters.
    pub(crate) fn lookup(&self, key: &[char]) -> (r: Option<Style>)
        ensures
            r == (if self@.contains_key(key@) {
                Some(self@[key@])
            } else {
                None
            }),
    {
        match self.find(key) {
            Some(i) => {
                proof {
                    lemma_entries_map_at(self.entries_view(), key@, i as int);
                }
                Some(self.entries[i].1)
            },
            None => None,
        }
    }

    /// Stores `style` under `key`, by characters.
    pub(crate) fn store(&mut self, key: &[char], style: Style)
        ensures
            final(self)@ == old(self)@.insert(key@, style),
    {
        proof {
            use_type_invariant(&*self);
        }
        let ghost old_es = self.entries_view();
        let k = slice_of(key, 0, key.len());
        assert(k@ =~= key@);
        let found = self.find(key);
        let mut entries: Vec<(Vec<char>, Style)> = Vec::new();
        std::mem::swap(&mut entries, &mut self.entries);
        let ghost view_of = |v: Seq<(Vec<char>, Style)>| v.map_values(|e: (Vec<char>, Style)| (e.0@, e.1));
        assert(view_of(entries@) == old_es);
        match found {
            Some(i) => {
                entries.set(i, (k, style));
                proof {
                    let es = view_of(entries@);
                    assert(es =~= old_es.update(i as int, (key@, style)));
                    lemma_entries_map_update(old_es, key@, i as int, style);
                    assert(keys_distinct(es)) by {
                        assert forall|a: int, b: int| 0 <= a < b < es.len() implies es[a].0 != es[b].0 by {
                            assert(old_es[a].0 != old_es[b].0);
                        }
                    }
                }
            },
            None => {
                entries.push((k, style));
                proof {
                    let es = view_of(entries@);
                    assert(es =~= old_es.push((key@, style)));
                    lemma_entries_map_push(old_es, key@, style);
                    assert(keys_distinct(es)) by {
                        assert forall|a: int, b: int| 0 <= a < b < es.len() implies es[a].0 != es[b].0 by {
                            if b < old_es.len() {
                                assert(old_es[a].0 != old_es[b].0);
                            } else {
                                assert(old_es[a].0 == es[a].0);
                                assert(entries_map(old_es).contains_key(old_es[a].0));
                            }
                        }
                    }
                }
            },
        }
        self.entries = entries;
    }

    /// The style stored under `key`, if any.
    pub fn get(&self, key: &str) -> (r: Option<Style>)
        ensures
            r == (if self@.contains_key(key@) {
                Some(self@[key@])
            } else {
                None
            }),
    {
        let k = chars_of(key);
        self.lookup(&k)
    }

    /// Stores `style` under `key`, replacing what was there.
    pub fn insert(&mut self, key: &str, style: Style)
        ensures
            final(self)@ == old(self)@.insert(key@, style),
    {
        let k = chars_of(key);
        self.store(&k, style);
    }
}

impl Clone for StyleSheet {
    fn clone(&self) -> (r: Self)
        ensures
            r@ == self@,
    {
        let mut entries: Vec<(Vec<char>, Style)> = Vec::new();
        let mut i: usize = 0;
        while i < self.entries.len()
            invariant
                i <= self.entries@.len(),
                entries@.len() == i,
                forall|j: int|
                    0 <= j < i ==> #[trigger] entries@[j].0@ == self.entries@[j].0@ && entries@[j].1
                        == self.entries@[j].1,
            decreases self.entries@.len() - i,
        {
            let k = slice_of(&self.entries[i].0, 0, self.entries[i].0.len());
            assert(k@ =~= self.entries@[i as int].0@);
            entries.push((k, self.entries[i].1));
            i = i + 1;
        }
        proof {
            use_type_invariant(self);
        }
        let ghost view_of = |v: Seq<(Vec<char>, Style)>| v.map_values(|e: (Vec<char>, Style)| (e.0@, e.1));
        assert(view_of(entries@) =~= self.entries_view());
        let r = StyleSheet { entries };
        r
    }
}

proof fn lemma_entries_map_update(
    es: Seq<(Seq<char>, Style)>,
    k: Seq<char>,
    i: int,
    style: Style,
)
    requires
        is_first_key(es, k, i),
    ensures
        entries_map(es.update(i, (k, style))) == entries_map(es).insert(k, style),
{
    let es2 = es.update(i, (k, style));
    let m = entries_map(es);
    let m2 = entries_map(es2);
    assert(is_first_key(es2, k, i));
    lemma_entries_map_at(es2, k, i);
    assert forall|k2: Seq<char>| #[trigger] m2.contains_key(k2) <==> m.insert(k, style).contains_key(
        k2,
    ) by {
        if k2 != k {
            if m2.contains_key(k2) {
                let j = choose|j: int| 0 <= j < es2.len() && es2[j].0 == k2;
                assert(es[j].0 == k2);
            }
            if m.contains_key(k2) {
                let j = choose|j: int| 0 <= j < es.len() && es[j].0 == k2;
                assert(es2[j].0 == k2);
            }
        }
    }
    assert forall|k2: Seq<char>| #[trigger] m2.contains_key(k2) && k2 != k implies m2[k2] == m[k2] by {
        let c2 = choose|c: int| is_first_key(es2, k2, c);
        let j = choose|j: int| 0 <= j < es2.len() && es2[j].0 == k2;
        lemma_exists_first_key(es2, k2, j);
        assert(is_first_key(es2, k2, c2));
        assert(is_first_key(es, k2, c2)) by {
            assert forall|j2: int| 0 <= j2 < c2 implies es[j2].0 != k2 by {
                assert(es2[j2].0 == es[j2].0);
            }
        }
        lemma_entries_map_at(es, k2, c2);
        lemma_entries_map_at(es2, k2, c2);
    }
    assert(m2 =~= m.insert(k, style));
}

proof fn lemma_exists_first_key(es: Seq<(Seq<char>, Style)>, k: Seq<char>, j: int)
    requires
        0 <= j < es.len(),
        es[j].0 == k,
    ensures
        exists|c: int| is_first_key(es, k, c),
    decreases j,
{
    if exists|j2: int| 0 <= j2 < j && es[j2].0 == k {
        let j2 = choose|j2: int| 0 <= j2 < j && es[j2].0 == k;
        lemma_exists_first_key(es, k, j2);
    } else {
        assert(is_first_key(es, k, j));
    }
}

proof fn lemma_entries_map_push(es: Seq<(Seq<char>, Style)>, k: Seq<char>, style: Style)
    requires
        !entries_map(es).contains_key(k),
    ensures
        entries_map(es.push((k, style))) == entries_map(es).insert(k, style),
{
    let es2 = es.push((k, style));
    let m = entries_map(es);
    let m2 = entries_map(es2);
    let n = es.len() as int;
    assert(is_first_key(es2, k, n));
    lemma_entries_map_at(es2, k, n);
    assert forall|k2: Seq<char>| #[trigger] m2.contains_key(k2) <==> m.insert(k, style).contains_key(
        k2,
    ) by {
        if k2 != k {
            if m2.contains_key(k2) {
                let j = choose|j: int| 0 <= j < es2.len() && es2[j].0 == k2;
                assert(es[j].0 == k2);
            }
            if m.contains_key(k2) {
                let j = choose|j: int| 0 <= j < es.len() && es[j].0 == k2;
                assert(es2[j].0 == k2);
            }
        }
    }
    assert forall|k2: Seq<char>| #[trigger] m2.contains_key(k2) && k2 != k implies m2[k2] == m[k2] by {
        let j = choose|j: int| 0 <= j < es2.len() && es2[j].0 == k2;
        lemma_exists_first_key(es2, k2, j);
        let c2 = choose|c: int| is_first_key(es2, k2, c);
        assert(c2 < n);
        assert(is_first_key(es, k2, c2)) by {
            assert forall|j2: int| 0 <= j2 < c2 implies es[j2].0 != k2 by {
                assert(es2[j2].0 == es[j2].0);
            }
        }
        lemma_entries_map_at(es, k2, c2);
        lemma_entries_map_at(es2, k2, c2);
    }
    assert(m2 =~= m.insert(k, style));
}

/// The colour a `#rrggbb` value stands for: after trimming, a `#` followed by
/// exactly six hex digits (either case), read in base 16.
pub open spec fn spec_parse_color(s: Seq<char>) -> Option<u32> {
    let t = trim(s);
    if t.len() == 7 && t[0] == '#' {
        match digits_value(t.drop_first(), 16) {
            Some(v) => Some(v as u32),
            None => None,
        }
    } else {
        None
    }
}

/// A decimal `u32`, after trimming (`str::parse::<u32>`).
pub open spec fn spec_parse_u32(s: Seq<char>) -> Option<u32> {
    parse_unsigned(trim(s), 10)
}

/// `left`, `center` or `right`, after trimming.
pub open spec fn spec_parse_align(s: Seq<char>) -> Option<Align> {
    let t = trim(s);
    if t == "left"@ {
        Some(Align::Left)
    } else if t == "center"@ {
        Some(Align::Center)
    } else if t == "right"@ {
        Some(Align::Right)
    } else {
        None
    }
}

/// `style` after the declaration `prop: value`: a known property with a value
/// that parses replaces that field; anything else leaves the style as it was.
pub open spec fn spec_set_style(style: Style, prop: Seq<char>, value: Seq<char>) -> Style {
    let v = trim(value);
    let p = trim(prop);
    if p == "background"@ {
        match spec_parse_color(v) {
            Some(c) => Style { background: c, ..style },
            None => style,
        }
    } else if p == "color"@ {
        match spec_parse_color(v) {
            Some(c) => Style { color: c, ..style },
            None => style,
        }
    } else if p == "border-color"@ {
        match spec_parse_color(v) {
            Some(c) => Style { border_color: c, ..style },
            None => style,
        }
    } else if p == "border-size"@ {
        match spec_parse_u32(v) {
            Some(n) => Style { border_size: n, ..style },
            None => style,
        }
    } else if p == "padding"@ {
        match spec_parse_u32(v) {
            Some(n) => Style { padding: n, ..style },
            None => style,
        }
    } else if p == "margin"@ {
        match spec_parse_u32(v) {
            Some(n) => Style { margin: n, ..style },
            None => style,
        }
    } else if p == "align"@ {
        match spec_parse_align(v) {
            Some(a) => Style { align: a, ..style },
            None => style,
        }
    } else {
        style
    }
}

/// The key a selector is stored and looked up under: trimmed, then lowercased.
pub open spec fn spec_canonical(name: Seq<char>) -> Seq<char> {
    lowercase(trim(name))
}

/// The sheet after one `prop: value` group of a declaration block: a group
/// with a colon makes sure the selector has an entry (the default style when
/// it had none) and applies the declaration to it.
pub open spec fn declaration_step(sheet: Map<Seq<char>, Style>, selector: Seq<char>, decl: Seq<char>) -> Map<
    Seq<char>,
    Style,
> {
    let d = trim(decl);
    let colon = find_from(d, ':', 0);
    if d.len() == 0 || colon >= d.len() {
        sheet
    } else {
        let prop = trim(d.subrange(0, colon));
        let value = trim(d.subrange(colon + 1, d.len() as int));
        let cur = if sheet.contains_key(selector) {
            sheet[selector]
        } else {
            default_style()
        };
        sheet.insert(selector, spec_set_style(cur, prop, value))
    }
}

/// The part of a chunk before its last `}` (all of it when there is none).
pub open spec fn block_body(chunk: Seq<char>) -> Seq<char> {
    match last_index_of(chunk, '}') {
        Some(i) => chunk.subrange(0, i),
        None => chunk,
    }
}

/// The sheet after the declarations of `chunk` are applied to `selector`.
pub open spec fn spec_declarations(sheet: Map<Seq<char>, Style>, selector: Seq<char>, chunk: Seq<char>) -> Map<
    Seq<char>,
    Style,
> {
    split_on(block_body(chunk), ';').fold_left(
        sheet,
        |m: Map<Seq<char>, Style>, decl: Seq<char>| declaration_step(m, selector, decl),
    )
}

/// Whether `s` begins with the two characters `a`, `b`.
pub open spec fn starts_with2(s: Seq<char>, a: char, b: char) -> bool {
    s.len() >= 2 && s[0] == a && s[1] == b
}

/// The parser state: the selector of the open block, if any, and the sheet so far.
pub type ParseState = (Option<Seq<char>>, Map<Seq<char>, Style>);

/// The state after one line of CSS.
pub open spec fn line_step(st: ParseState, raw: Seq<char>) -> ParseState {
    let line = trim(raw);
    let (selector, sheet) = st;
    if line.len() == 0 || starts_with2(line, '/', '/') || starts_with2(line, '/', '*') {
        st
    } else if line.contains('{') {
        let b = find_from(line, '{', 0);
        let sel = spec_canonical(trim(line.subrange(0, b)));
        let after = line.subrange(b + 1, line.len() as int);
        let sheet2 = spec_declarations(sheet, sel, after);
        if after.contains('}') {
            (None, sheet2)
        } else {
            (Some(sel), sheet2)
        }
    } else if line.contains('}') {
        let sel = match selector {
            Some(s) => s,
            None => Seq::<char>::empty(),
        };
        (None, spec_declarations(sheet, sel, line))
    } else {
        match selector {
            Some(s) => (selector, spec_declarations(sheet, s, line)),
            None => st,
        }
    }
}

/// The stylesheet that CSS text `css` describes.
pub open spec fn spec_parse(css: Seq<char>) -> Map<Seq<char>, Style> {
    lines(css).fold_left(
        (None::<Seq<char>>, Map::<Seq<char>, Style>::empty()),
        |st: ParseState, line: Seq<char>| line_step(st, line),
    ).1
}

/// `dst` with every field that `src` sets copied over. A numeric field counts
/// as set when it is non-zero; the alignment counts as set when it is not the
/// default `Center`.
pub open spec fn spec_apply(src: Style, dst: Style) -> Style {
    Style {
        background: if src.background != 0 {
            src.background
        } else {
            dst.background
        },
        color: if src.color != 0 {
            src.color
        } else {
            dst.color
        },
        border_color: if src.border_color != 0 {
            src.border_color
        } else {
            dst.border_color
        },
        border_size: if src.border_size != 0 {
            src.border_size
        } else {
            dst.border_size
        },
        padding: if src.padding != 0 {
            src.padding
        } else {
            dst.padding
        },
        margin: if src.margin != 0 {
            src.margin
        } else {
            dst.margin
        },
        align: if src.align != Align::Center {
            src.align
        } else {
            dst.align
        },
    }
}

/// The style after the entry of one selector (if the sheet has one) is applied.
pub open spec fn resolve_step(sheet: Map<Seq<char>, Style>, st: Style, sel: Seq<char>) -> Style {
    let k = spec_canonical(sel);
    if sheet.contains_key(k) {
        spec_apply(sheet[k], st)
    } else {
        st
    }
}

/// The default style with the universal entry `*` applied.
pub open spec fn resolve_base(sheet: Map<Seq<char>, Style>) -> Style {
    if sheet.contains_key(seq!['*']) {
        spec_apply(sheet[seq!['*']], default_style())
    } else {
        default_style()
    }
}

/// The effective style for the given selectors: the defaults, then `*`, then
/// each selector's entry in turn.
pub open spec fn spec_resolve(sheet: Map<Seq<char>, Style>, selectors: Seq<Seq<char>>) -> Style {
    selectors.fold_left(
        resolve_base(sheet),
        |st: Style, sel: Seq<char>| resolve_step(sheet, st, sel),
    )
}

fn parse_color(s: &[char]) -> (r: Option<u32>)
    ensures
        r == spec_parse_color(s@),
{
    let t = trim_chars(s);
    if t.len() == 7 && t[0] == '#' {
        let hex = slice_of(&t, 1, t.len());
        assert(hex@ =~= t@.drop_first());
        if hex[0] == '+' {
            proof {
                if digits_value(hex@, 16) is Some {
                    lemma_digits_all(hex@, 16, 0);
                }
            }
            return None;
        }
        let r = parse_u32_radix(&hex, 16);
        proof {
            if digits_value(hex@, 16) is Some {
                lemma_digits_bound(hex@, 16);
                assert(radix_pow(16, 6) == 16777216) by {
                    reveal_with_fuel(radix_pow, 7);
                }
            }
        }
        r
    } else {
        None
    }
}

fn parse_u32(s: &[char]) -> (r: Option<u32>)
    ensures
        r == spec_parse_u32(s@),
{
    let t = trim_chars(s);
    parse_u32_radix(&t, 10)
}

fn parse_align(s: &[char]) -> (r: Option<Align>)
    ensures
        r == spec_parse_align(s@),
{
    let t = trim_chars(s);
    if eq_lit(&t, "left") {
        Some(Align::Left)
    } else if eq_lit(&t, "center") {
        Some(Align::Center)
    } else if eq_lit(&t, "right") {
        Some(Align::Right)
    } else {
        None
    }
}

fn set_style(style: &mut Style, prop: &[char], value: &[char])
    ensures
        *final(style) == spec_set_style(*old(style), prop@, value@),
{
    let v = trim_chars(value);
    let p = trim_chars(prop);
    if eq_lit(&p, "background") {
        if let Some(c) = parse_color(&v) {
            style.background = c;
        }
    } else if eq_lit(&p, "color") {
        if let Some(c) = parse_color(&v) {
            style.color = c;
        }
    } else if eq_lit(&p, "border-color") {
        if let Some(c) = parse_color(&v) {
            style.border_color = c;
        }
    } else if eq_lit(&p, "border-size") {
        if let Some(n) = parse_u32(&v) {
            style.border_size = n;
        }
    } else if eq_lit(&p, "padding") {
        if let Some(n) = parse_u32(&v) {
            style.padding = n;
        }
    } else if eq_lit(&p, "margin") {
        if let Some(n) = parse_u32(&v) {
            style.margin = n;
        }
    } else if eq_lit(&p, "align") {
        if let Some(a) = parse_align(&v) {
            style.align = a;
        }
    }
}

fn canonical(name: &[char]) -> (r: Vec<char>)
    ensures
        r@ == spec_canonical(name@),
{
    let t = trim_chars(name);
    to_lowercase(&t)
}

/// Parse CSS text into a stylesheet keyed by selector.
pub fn parse(css: &str) -> (sheet: StyleSheet)
    ensures
        sheet@ == spec_parse(css@),
{
    let chars = chars_of(css);
    let all = lines_of(&chars);
    let ghost ls = lines(css@);
    let ghost f = |st: ParseState, line: Seq<char>| line_step(st, line);
    let mut sheet = StyleSheet::new();
    let mut selector: Option<Vec<char>> = None;
    let mut k: usize = 0;
    while k < all.len()
        invariant
            k <= all@.len(),
            all@.len() == ls.len(),
            ls == lines(css@),
            forall|j: int| 0 <= j < all@.len() ==> #[trigger] all@[j]@ == ls[j],
            f == (|st: ParseState, line: Seq<char>| line_step(st, line)),
            ls.take(k as int).fold_left(
                (None::<Seq<char>>, Map::<Seq<char>, Style>::empty()),
                f,
            ) == (opt_chars(selector), sheet@),
        decreases all@.len() - k,
    {
        proof {
            assert(ls.take(k + 1).drop_last() =~= ls.take(k as int));
            assert(ls.take(k + 1).last() == ls[k as int]);
        }
        let line = trim_chars(&all[k]);
        if line.len() == 0 || (line.len() >= 2 && line[0] == '/' && (line[1] == '/' || line[1]
            == '*')) {
            k = k + 1;
            continue ;
        }
        if contains_char(&line, '{') {
            let b = find_char(&line, '{', 0);
            proof {
                lemma_find_from(line@, '{', 0);
            }
            let head = slice_of(&line, 0, b);
            let head_t = trim_chars(&head);
            let sel = canonical(&head_t);
            let after = slice_of(&line, b + 1, line.len());
            parse_declarations(&mut sheet, &sel, &after);
            if contains_char(&after, '}') {
                selector = None;
            } else {
                selector = Some(sel);
            }
            k = k + 1;
            continue ;
        }
        if contains_char(&line, '}') {
            let empty: Vec<char> = Vec::new();
            match &selector {
                Some(s) => parse_declarations(&mut sheet, s, &line),
                None => parse_declarations(&mut sheet, &empty, &line),
            }
            selector = None;
            proof {
                assert(empty@ =~= Seq::<char>::empty());
            }
            k = k + 1;
            continue ;
        }
        match &selector {
            Some(s) => parse_declarations(&mut sheet, s, &line),
            None => {},
        }
        k = k + 1;
    }
    assert(ls.take(all@.len() as int) =~= ls);
    sheet
}

/// The characters of an optional character vector.
pub open spec fn opt_chars(o: Option<Vec<char>>) -> Option<Seq<char>> {
    match o {
        Some(v) => Some(v@),
        None => None,
    }
}

fn parse_declarations(sheet: &mut StyleSheet, selector: &[char], chunk: &[char])
    ensures
        final(sheet)@ == spec_declarations(old(sheet)@, selector@, chunk@),
{
    let body = match rfind_char(chunk, '}') {
        Some(i) => slice_of(chunk, 0, i),
        None => slice_of(chunk, 0, chunk.len()),
    };
    assert(body@ =~= block_body(chunk@));
    let decls = split_chars(&body, ';');
    let ghost ds = split_on(block_body(chunk@), ';');
    let ghost f = |m: Map<Seq<char>, Style>, decl: Seq<char>| declaration_step(m, selector@, decl);
    let ghost start = sheet@;
    let mut k: usize = 0;
    while k < decls.len()
        invariant
            k <= decls@.len(),
            decls@.len() == ds.len(),
            ds == split_on(block_body(chunk@), ';'),
            forall|j: int| 0 <= j < decls@.len() ==> #[trigger] decls@[j]@ == ds[j],
            f == (|m: Map<Seq<char>, Style>, decl: Seq<char>| declaration_step(m, selector@, decl)),
            ds.take(k as int).fold_left(start, f) == sheet@,
        decreases decls@.len() - k,
    {
        proof {
            assert(ds.take(k + 1).drop_last() =~= ds.take(k as int));
            assert(ds.take(k + 1).last() == ds[k as int]);
        }
        let d = trim_chars(&decls[k]);
        if d.len() > 0 {
            let colon = find_char(&d, ':', 0);
            proof {
                lemma_find_from(d@, ':', 0);
            }
            if colon < d.len() {
                let prop_raw = slice_of(&d, 0, colon);
                let value_raw = slice_of(&d, colon + 1, d.len());
                let prop = trim_chars(&prop_raw);
                let value = trim_chars(&value_raw);
                let mut entry = match sheet.lookup(selector) {
                    Some(st) => st,
                    None => Style::default(),
                };
                set_style(&mut entry, &prop, &value);
                sheet.store(selector, entry);
            }
        }
        k = k + 1;
    }
    assert(ds.take(decls@.len() as int) =~= ds);
}

/// Resolve the effective style for a widget by selector, falling back to defaults.
pub fn resolve(sheet: &StyleSheet, selectors: &[&str]) -> (style: Style)
    ensures
        style == spec_resolve(sheet@, selectors@.map_values(|s: &str| s@)),
{
    let ghost sels = selectors@.map_values(|s: &str| s@);
    let ghost f = |st: Style, sel: Seq<char>| resolve_step(sheet@, st, sel);
    let mut style = Style::default();
    let star: Vec<char> = vec!['*'];
    assert(star@ =~= seq!['*']);
    if let Some(s) = sheet.lookup(&star) {
        apply(&s, &mut style);
    }
    let mut k: usize = 0;
    while k < selectors.len()
        invariant
            k <= selectors@.len(),
            sels == selectors@.map_values(|s: &str| s@),
            f == (|st: Style, sel: Seq<char>| resolve_step(sheet@, st, sel)),
            sels.take(k as int).fold_left(resolve_base(sheet@), f) == style,
        decreases selectors@.len() - k,
    {
        proof {
            assert(sels.take(k + 1).drop_last() =~= sels.take(k as int));
            assert(sels.take(k + 1).last() == selectors@[k as int]@);
        }
        let sel = chars_of(selectors[k]);
        let key = canonical(&sel);
        if let Some(s) = sheet.lookup(&key) {
            apply(&s, &mut style);
        }
        k = k + 1;
    }
    assert(sels.take(selectors@.len() as int) =~= sels);
    style
}

fn apply(src: &Style, dst: &mut Style)
    ensures
        *final(dst) == spec_apply(*src, *old(dst)),
{
    // Since Style defaults are concrete values, we can't distinguish "unset"
    // without per-field Option. For the subset, we just copy defined fields.
    if configured(src.background) {
        dst.background = src.background;
    }
    if configured(src.color) {
        dst.color = src.color;
    }
    if configured(src.border_color) {
        dst.border_color = src.border_color;
    }
    if src.border_size != 0 {
        dst.border_size = src.border_size;
    }
    if src.padding != 0 {
        dst.padding = src.padding;
    }
    if src.margin != 0 {
        dst.margin = src.margin;
    }
    if src.align != Align::Center {
        dst.align = src.align;
    }
}

fn configured(v: u32) -> (r: bool)
    ensures
        r == (v != 0),
{
    v != 0
}

/// With an empty stylesheet every widget gets the default style, whatever its selectors.
pub proof fn law_empty_sheet_gives_defaults(selectors: Seq<Seq<char>>)
    ensures
        spec_resolve(Map::<Seq<char>, Style>::empty(), selectors) == default_style(),
    decreases selectors.len(),
{
    if selectors.len() > 0 {
        law_empty_sheet_gives_defaults(selectors.drop_last());
    }
}

/// Naming the same selector twice in a row resolves like naming it once:
/// applying an entry is idempotent.
pub proof fn law_repeated_selector(
    sheet: Map<Seq<char>, Style>,
    selectors: Seq<Seq<char>>,
    sel: Seq<char>,
)
    ensures
        spec_resolve(sheet, selectors.push(sel).push(sel)) == spec_resolve(sheet, selectors.push(sel)),
{
    assert(selectors.push(sel).push(sel).drop_last() =~= selectors.push(sel));
    assert(selectors.push(sel).drop_last() =~= selectors);
}

/// The last selector that has an entry decides every field its entry sets: a
/// non-zero number, an alignment other than `Center`. An unset field keeps
/// what came before.
pub proof fn law_last_selector_sets_configured_fields(
    sheet: Map<Seq<char>, Style>,
    selectors: Seq<Seq<char>>,
    sel: Seq<char>,
)
    requires
        sheet.contains_key(spec_canonical(sel)),
    ensures
        ({
            let e = sheet[spec_canonical(sel)];
            let before = spec_resolve(sheet, selectors);
            let after = spec_resolve(sheet, selectors.push(sel));
            &&& after.background == (if e.background != 0 { e.background } else { before.background })
            &&& after.color == (if e.color != 0 { e.color } else { before.color })
            &&& after.border_color == (if e.border_color != 0 { e.border_color } else { before.border_color })
            &&& after.border_size == (if e.border_size != 0 { e.border_size } else { before.border_size })
            &&& after.padding == (if e.padding != 0 { e.padding } else { before.padding })
            &&& after.margin == (if e.margin != 0 { e.margin } else { before.margin })
            &&& after.align == (if e.align != Align::Center { e.align } else { before.align })
        }),
{
    assert(selectors.push(sel).drop_last() =~= selectors);
}

/// Field `f` of a style as a number: 0 background, 1 text colour, 2 border
/// colour, 3 border size, 4 padding, 5 margin, 6 alignment (left 0, center 1,
/// right 2).
pub open spec fn field(st: Style, f: int) -> int {
    if f == 0 {
        st.background as int
    } else if f == 1 {
        st.color as int
    } else if f == 2 {
        st.border_color as int
    } else if f == 3 {
        st.border_size as int
    } else if f == 4 {
        st.padding as int
    } else if f == 5 {
        st.margin as int
    } else {
        match st.align {
            Align::Left => 0,
            Align::Center => 1,
            Align::Right => 2,
        }
    }
}

/// Whether an entry sets field `f`: a number other than zero, an alignment
/// other than `Center`.
pub open spec fn is_set(st: Style, f: int) -> bool {
    if f == 6 {
        st.align != Align::Center
    } else {
        field(st, f) != 0
    }
}

/// The entries that the selectors name and the sheet has, in order.
pub open spec fn selector_entries(sheet: Map<Seq<char>, Style>, selectors: Seq<Seq<char>>) -> Seq<Style>
    decreases selectors.len(),
{
    if selectors.len() == 0 {
        Seq::empty()
    } else {
        let pre = selector_entries(sheet, selectors.drop_last());
        let k = spec_canonical(selectors.last());
        if sheet.contains_key(k) {
            pre.push(sheet[k])
        } else {
            pre
        }
    }
}

/// The entries a resolution goes through: the `*` entry if there is one, then
/// those the selectors name.
pub open spec fn present_entries(sheet: Map<Seq<char>, Style>, selectors: Seq<Seq<char>>) -> Seq<Style> {
    let star: Seq<Style> = if sheet.contains_key(seq!['*']) {
        seq![sheet[seq!['*']]]
    } else {
        Seq::empty()
    };
    star + selector_entries(sheet, selectors)
}

/// Field `f` as a cascade over `entries` decides it: the value of the last
/// entry that sets it, else the default.
pub open spec fn cascade(entries: Seq<Style>, f: int) -> int
    decreases entries.len(),
{
    if entries.len() == 0 {
        field(default_style(), f)
    } else if is_set(entries.last(), f) {
        field(entries.last(), f)
    } else {
        cascade(entries.drop_last(), f)
    }
}

/// Applying an entry sets exactly the fields it sets, field by field.
pub proof fn law_apply_fields(src: Style, dst: Style)
    ensures
        forall|f: int|
            0 <= f <= 6 ==> #[trigger] field(spec_apply(src, dst), f) == (if is_set(src, f) {
                field(src, f)
            } else {
                field(dst, f)
            }),
{
}

/// Every field of a resolved style is the value of the last present entry
/// (the `*` entry, then the selectors' entries in order) that sets it, or the
/// default when none does.
pub proof fn law_resolve_cascade(sheet: Map<Seq<char>, Style>, selectors: Seq<Seq<char>>)
    ensures
        forall|f: int|
            0 <= f <= 6 ==> #[trigger] field(spec_resolve(sheet, selectors), f) == cascade(
                present_entries(sheet, selectors),
                f,
            ),
    decreases selectors.len(),
{
    let es = present_entries(sheet, selectors);
    if selectors.len() == 0 {
        if sheet.contains_key(seq!['*']) {
            let star = sheet[seq!['*']];
            law_apply_fields(star, default_style());
            assert(es =~= seq![star]);
            assert(es.drop_last() =~= Seq::<Style>::empty());
            assert forall|f: int| 0 <= f <= 6 implies #[trigger] field(spec_resolve(sheet, selectors), f)
                == cascade(es, f) by {
                assert(field(spec_apply(star, default_style()), f) == (if is_set(star, f) {
                    field(star, f)
                } else {
                    field(default_style(), f)
                }));
                assert(cascade(es.drop_last(), f) == field(default_style(), f));
            }
        } else {
            assert(es =~= Seq::<Style>::empty());
        }
    } else {
        let pre = selectors.drop_last();
        law_resolve_cascade(sheet, pre);
        let st = spec_resolve(sheet, pre);
        let k = spec_canonical(selectors.last());
        let pes = present_entries(sheet, pre);
        assert(spec_resolve(sheet, selectors) == resolve_step(sheet, st, selectors.last()));
        if sheet.contains_key(k) {
            let e = sheet[k];
            law_apply_fields(e, st);
            assert(es =~= pes.push(e));
            assert(es.drop_last() =~= pes);
            assert forall|f: int| 0 <= f <= 6 implies #[trigger] field(spec_resolve(sheet, selectors), f)
                == cascade(es, f) by {
                assert(field(spec_apply(e, st), f) == (if is_set(e, f) {
                    field(e, f)
                } else {
                    field(st, f)
                }));
                assert(field(st, f) == cascade(pes, f));
            }
        } else {
            assert(es =~= pes);
            assert forall|f: int| 0 <= f <= 6 implies #[trigger] field(spec_resolve(sheet, selectors), f)
                == cascade(es, f) by {
                assert(field(st, f) == cascade(pes, f));
            }
        }
    }
}

proof fn lemma_cascade_bound(es: Seq<Style>, f: int, b: int)
    requires
        0 <= f <= 5,
        field(default_style(), f) <= b,
        forall|j: int| 0 <= j < es.len() ==> field(#[trigger] es[j], f) <= b,
    ensures
        cascade(es, f) <= b,
    decreases es.len(),
{
    if es.len() > 0 {
        let pre = es.drop_last();
        assert forall|j: int| 0 <= j < pre.len() implies field(#[trigger] pre[j], f) <= b by {
            assert(pre[j] == es[j]);
        }
        lemma_cascade_bound(pre, f, b);
        assert(field(es[es.len() - 1], f) <= b);
    }
}

proof fn lemma_selector_entries_in_sheet(sheet: Map<Seq<char>, Style>, selectors: Seq<Seq<char>>)
    ensures
        forall|j: int|
            0 <= j < selector_entries(sheet, selectors).len() ==> exists|k: Seq<char>|
                sheet.contains_key(k) && #[trigger] selector_entries(sheet, selectors)[j] == sheet[k],
    decreases selectors.len(),
{
    if selectors.len() > 0 {
        let pre = selectors.drop_last();
        lemma_selector_entries_in_sheet(sheet, pre);
        let pes = selector_entries(sheet, pre);
        let es = selector_entries(sheet, selectors);
        let k = spec_canonical(selectors.last());
        assert forall|j: int| 0 <= j < es.len() implies exists|k2: Seq<char>|
            sheet.contains_key(k2) && #[trigger] es[j] == sheet[k2] by {
            if j < pes.len() {
                assert(es[j] == pes[j]);
            } else {
                assert(es[j] == sheet[k]);
            }
        }
    }
}

/// A numeric field of a resolved style is never larger than a bound that the
/// default and every entry of the sheet keep to.
pub proof fn law_resolve_bounded(sheet: Map<Seq<char>, Style>, selectors: Seq<Seq<char>>, f: int, b: int)
    requires
        0 <= f <= 5,
        field(default_style(), f) <= b,
        forall|k: Seq<char>| #[trigger] sheet.contains_key(k) ==> field(sheet[k], f) <= b,
    ensures
        field(spec_resolve(sheet, selectors), f) <= b,
{
    law_resolve_cascade(sheet, selectors);
    lemma_selector_entries_in_sheet(sheet, selectors);
    let es = present_entries(sheet, selectors);
    let ses = selector_entries(sheet, selectors);
    assert forall|j: int| 0 <= j < es.len() implies field(#[trigger] es[j], f) <= b by {
        if sheet.contains_key(seq!['*']) {
            if j == 0 {
                assert(es[j] == sheet[seq!['*']]);
            } else {
                assert(es[j] == ses[j - 1]);
                let k = choose|k: Seq<char>| sheet.contains_key(k) && ses[j - 1] == sheet[k];
            }
        } else {
            assert(es[j] == ses[j]);
            let k = choose|k: Seq<char>| sheet.contains_key(k) && ses[j] == sheet[k];
        }
    }
    lemma_cascade_bound(es, f, b);
}

proof fn lemma_block_lines(h: Seq<char>, c: Seq<char>)
    requires
        !h.contains('\n'),
        !c.contains('\n'),
    ensures
        lines(h + "{\n"@ + c + "}"@) == seq![h + "{"@, c + "}"@],
        lines(h + "{"@ + c + "}"@) == seq![h + "{"@ + c + "}"@],
{
    reveal_strlit("{");
    reveal_strlit("}");
    reveal_strlit("{\n");
    let ob = "{"@;
    let cb = "}"@;
    assert(ob.len() == 1 && ob[0] == '{');
    assert(cb.len() == 1 && cb[0] == '}');
    assert("{\n"@ =~= seq!['{', '\n']);
    let css1 = h + "{\n"@ + c + cb;
    let css2 = h + ob + c + cb;
    let l1 = h + ob;
    let l2 = c + cb;
    let nh = h.len() as int;
    assert forall|j: int| 0 <= j < nh implies css1[j] != '\n' by {
        assert(css1[j] == h[j]);
        assert(!(h[j] == '\n'));
    }
    assert(css1[nh] == '{' && css1[nh + 1] == '\n');
    lemma_find_exact(css1, '\n', 0, nh + 1);
    assert(css1.subrange(0, nh + 1) =~= l1);
    assert forall|j: int| nh + 2 <= j < css1.len() implies css1[j] != '\n' by {
        if j < css1.len() - 1 {
            assert(css1[j] == c[j - nh - 2]);
            assert(!(c[j - nh - 2] == '\n'));
        }
    }
    lemma_find_exact(css1, '\n', nh + 2, css1.len() as int);
    assert(css1.subrange(nh + 2, css1.len() as int) =~= l2);
    assert(lines_from(css1, css1.len() as int + 1) == Seq::<Seq<char>>::empty());
    assert(lines_from(css1, nh + 2) == seq![l2]) by {
        assert(seq![l2] + Seq::<Seq<char>>::empty() =~= seq![l2]);
    }
    assert(lines(css1) == seq![l1, l2]) by {
        assert(seq![l1] + seq![l2] =~= seq![l1, l2]);
    }
    assert forall|j: int| 0 <= j < css2.len() implies css2[j] != '\n' by {
        if j < nh {
            assert(css2[j] == h[j]);
            assert(!(h[j] == '\n'));
        } else if nh < j < css2.len() - 1 {
            assert(css2[j] == c[j - nh - 1]);
            assert(!(c[j - nh - 1] == '\n'));
        }
    }
    lemma_find_exact(css2, '\n', 0, css2.len() as int);
    assert(lines_from(css2, css2.len() as int + 1) == Seq::<Seq<char>>::empty());
    assert(css2.subrange(0, css2.len() as int) =~= css2);
    assert(lines(css2) == seq![css2]) by {
        assert(seq![css2] + Seq::<Seq<char>>::empty() =~= seq![css2]);
    }
}

/// The selector key an opening line `h {` gives.
spec fn head_selector(h: Seq<char>) -> Seq<char> {
    spec_canonical(trim(h))
}

proof fn lemma_head_clean(h: Seq<char>)
    requires
        !h.contains('{'),
        !h.contains('}'),
    ensures
        forall|j: int| 0 <= j < trim_start(h).len() ==> trim_start(h)[j] != '{' && trim_start(h)[j] != '}',
{
    let hs = trim_start(h);
    lemma_trim_start_suffix(h);
    let k = choose|k: int| 0 <= k <= h.len() && trim_start(h) == h.subrange(k, h.len() as int);
    assert forall|j: int| 0 <= j < hs.len() implies hs[j] != '{' && hs[j] != '}' by {
        assert(hs[j] == h[k + j]);
        assert(!(h[k + j] == '{'));
        assert(!(h[k + j] == '}'));
    }
}

proof fn lemma_open_line(h: Seq<char>)
    requires
        !h.contains('{'),
        !h.contains('}'),
        !starts_with2(trim(h + "{"@), '/', '/'),
        !starts_with2(trim(h + "{"@), '/', '*'),
    ensures
        line_step((None, Map::empty()), h + "{"@) == (Some(head_selector(h)), Map::<Seq<char>, Style>::empty()),
{
    reveal_strlit("{");
    let ob = "{"@;
    assert(ob.len() == 1 && ob[0] == '{');
    let hs = trim_start(h);
    lemma_trim_start_concat(h, ob);
    lemma_head_clean(h);
    let t1 = hs + ob;
    assert(trim_end(t1) == t1);
    assert(trim(h + ob) == t1);
    lemma_find_exact(t1, '{', 0, hs.len() as int);
    assert(t1.contains('{')) by {
        assert(t1[hs.len() as int] == '{');
    }
    assert(t1.subrange(0, hs.len() as int) =~= hs);
    lemma_trim_start_idem(h);
    let sel = head_selector(h);
    let after1 = t1.subrange(hs.len() as int + 1, t1.len() as int);
    assert(after1 =~= Seq::<char>::empty());
    assert(!after1.contains('}'));
    let empty_map = Map::<Seq<char>, Style>::empty();
    assert(block_body(after1) == after1);
    assert(split_on(after1, ';') == seq![Seq::<char>::empty()]) by {
        assert(after1.subrange(0, 0) =~= Seq::<char>::empty());
    }
    let ds = split_on(block_body(after1), ';');
    let f = |m: Map<Seq<char>, Style>, decl: Seq<char>| declaration_step(m, sel, decl);
    assert(trim(Seq::<char>::empty()) =~= Seq::<char>::empty());
    assert(declaration_step(empty_map, sel, Seq::<char>::empty()) == empty_map);
    assert(ds.len() == 1 && ds.last() == Seq::<char>::empty());
    assert(ds.drop_last() =~= Seq::<Seq<char>>::empty());
    assert(ds.drop_last().fold_left(empty_map, f) == empty_map);
    assert(ds.fold_left(empty_map, f) == f(ds.drop_last().fold_left(empty_map, f), ds.last()));
    assert(spec_declarations(empty_map, sel, after1) == empty_map);
}

proof fn lemma_close_line(c: Seq<char>, sel: Seq<char>)
    requires
        !c.contains('{'),
        c.len() > 0 ==> !is_white_space(c[0]),
        !starts_with2(c + "}"@, '/', '/'),
        !starts_with2(c + "}"@, '/', '*'),
    ensures
        line_step((Some(sel), Map::empty()), c + "}"@) == (None::<Seq<char>>, spec_declarations(
            Map::empty(),
            sel,
            c + "}"@,
        )),
{
    reveal_strlit("}");
    let cb = "}"@;
    assert(cb.len() == 1 && cb[0] == '}');
    let l2 = c + cb;
    assert(trim_start(c) == c);
    lemma_trim_start_concat(c, cb);
    assert(trim_end(l2) == l2);
    assert(trim(l2) == l2);
    assert(!l2.contains('{')) by {
        assert forall|j: int| 0 <= j < l2.len() implies l2[j] != '{' by {
            if j < c.len() {
                assert(l2[j] == c[j]);
                assert(!(c[j] == '{'));
            }
        }
    }
    assert(l2.contains('}')) by {
        assert(l2[l2.len() - 1] == '}');
    }
}

proof fn lemma_single_block_line(h: Seq<char>, c: Seq<char>)
    requires
        !h.contains('{'),
        !h.contains('}'),
        !starts_with2(trim(h + "{"@), '/', '/'),
        !starts_with2(trim(h + "{"@), '/', '*'),
    ensures
        line_step((None, Map::empty()), h + "{"@ + c + "}"@) == (None::<Seq<char>>, spec_declarations(
            Map::empty(),
            head_selector(h),
            c + "}"@,
        )),
{
    reveal_strlit("{");
    reveal_strlit("}");
    let ob = "{"@;
    let cb = "}"@;
    assert(ob.len() == 1 && ob[0] == '{');
    assert(cb.len() == 1 && cb[0] == '}');
    let hs = trim_start(h);
    lemma_head_clean(h);
    lemma_trim_start_concat(h, ob);
    assert(trim_end(hs + ob) == hs + ob);
    let t1 = hs + ob;
    let y = ob + c + cb;
    assert(h + ob + c + cb =~= h + y);
    assert(y[0] == '{');
    lemma_trim_start_concat(h, y);
    let t2 = hs + y;
    assert(trim_end(t2) == t2) by {
        assert(t2.last() == '}');
    }
    assert(trim(h + ob + c + cb) == t2);
    assert(t2[0] == t1[0]);
    assert(hs.len() >= 1 ==> t2[1] == t1[1]);
    assert(!starts_with2(t2, '/', '/') && !starts_with2(t2, '/', '*'));
    assert(t2[hs.len() as int] == '{');
    lemma_find_exact(t2, '{', 0, hs.len() as int);
    assert(t2.contains('{'));
    assert(t2.subrange(0, hs.len() as int) =~= hs);
    lemma_trim_start_idem(h);
    let after2 = t2.subrange(hs.len() as int + 1, t2.len() as int);
    assert(after2 =~= c + cb);
    assert(after2.contains('}')) by {
        assert(after2[after2.len() - 1] == '}');
    }
}

/// Declarations written before the `}` on the line that closes an open block
/// belong to that block: `h {` on one line and `c }` on the next give the
/// sheet that `h { c }` on one line gives. (`h` and `c` hold no brace and no
/// line break, `c` starts with no white space, and neither line is a comment.)
pub proof fn law_closing_line_joins_block(h: Seq<char>, c: Seq<char>)
    requires
        !h.contains('{'),
        !h.contains('}'),
        !h.contains('\n'),
        !c.contains('{'),
        !c.contains('}'),
        !c.contains('\n'),
        c.len() > 0 ==> !is_white_space(c[0]),
        !starts_with2(trim(h + "{"@), '/', '/'),
        !starts_with2(trim(h + "{"@), '/', '*'),
        !starts_with2(c + "}"@, '/', '/'),
        !starts_with2(c + "}"@, '/', '*'),
    ensures
        spec_parse(h + "{\n"@ + c + "}"@) == spec_parse(h + "{"@ + c + "}"@),
{
    let l1 = h + "{"@;
    let l2 = c + "}"@;
    let css2 = h + "{"@ + c + "}"@;
    lemma_block_lines(h, c);
    lemma_open_line(h);
    lemma_close_line(c, head_selector(h));
    lemma_single_block_line(h, c);
    let init: ParseState = (None::<Seq<char>>, Map::<Seq<char>, Style>::empty());
    let g = |st: ParseState, line: Seq<char>| line_step(st, line);
    let two = seq![l1, l2];
    let one = seq![css2];
    assert(two.drop_last() =~= seq![l1]);
    assert(seq![l1].drop_last() =~= Seq::<Seq<char>>::empty());
    assert(one.drop_last() =~= Seq::<Seq<char>>::empty());
    assert(seq![l1].fold_left(init, g) == g(Seq::<Seq<char>>::empty().fold_left(init, g), l1));
    assert(two.fold_left(init, g) == g(seq![l1].fold_left(init, g), l2));
    assert(one.fold_left(init, g) == g(Seq::<Seq<char>>::empty().fold_left(init, g), css2));
}

/// A one-line block `h { p: v }` with a single declaration gives a sheet with
/// one entry: under the trimmed, lowercased selector `h`, the default style
/// with that declaration applied. (`h`, `p` and `v` hold no brace, no `;` and
/// no line break, `p` no `:`; `p` starts and `v` ends with other than white
/// space; the line is no comment.)
pub proof fn law_one_line_block(h: Seq<char>, p: Seq<char>, v: Seq<char>)
    requires
        !h.contains('{'),
        !h.contains('}'),
        !h.contains('\n'),
        !starts_with2(trim(h + "{"@), '/', '/'),
        !starts_with2(trim(h + "{"@), '/', '*'),
        p.len() > 0,
        !is_white_space(p[0]),
        forall|j: int|
            0 <= j < p.len() ==> #[trigger] p[j] != ':' && p[j] != ';' && p[j] != '{' && p[j] != '}'
                && p[j] != '\n',
        forall|j: int|
            0 <= j < v.len() ==> #[trigger] v[j] != ';' && v[j] != '{' && v[j] != '}' && v[j] != '\n',
        v.len() > 0 ==> !is_white_space(v.last()),
    ensures
        spec_parse(h + "{"@ + p + ":"@ + v + "}"@) == Map::<Seq<char>, Style>::empty().insert(
            spec_canonical(trim(h)),
            spec_set_style(default_style(), trim(p), trim(v)),
        ),
{
    reveal_strlit("{");
    reveal_strlit("}");
    reveal_strlit(":");
    let colon = ":"@;
    assert(colon.len() == 1 && colon[0] == ':');
    let cb = "}"@;
    assert(cb.len() == 1 && cb[0] == '}');
    let c = p + colon + v;
    let np = p.len() as int;
    assert(h + "{"@ + p + ":"@ + v + "}"@ =~= h + "{"@ + c + cb);
    assert(!c.contains('{') && !c.contains('}') && !c.contains('\n') && !c.contains(';')) by {
        assert forall|j: int| 0 <= j < c.len() implies c[j] != '{' && c[j] != '}' && c[j] != '\n'
            && c[j] != ';' by {
            if j < np {
                assert(c[j] == p[j]);
            } else if j > np {
                assert(c[j] == v[j - np - 1]);
            }
        }
    }
    lemma_block_lines(h, c);
    lemma_single_block_line(h, c);
    let sel = head_selector(h);
    let empty_map = Map::<Seq<char>, Style>::empty();
    // The block body is the one declaration `c`.
    let l2 = c + cb;
    assert(l2.drop_last() =~= c);
    assert(last_index_of(l2, '}') == Some(l2.len() - 1));
    assert(l2.subrange(0, l2.len() - 1) =~= c);
    assert(block_body(l2) == c);
    lemma_find_exact(c, ';', 0, c.len() as int);
    assert(c.subrange(0, c.len() as int) =~= c);
    assert(split_on(c, ';') == seq![c]);
    // The declaration itself.
    assert(c[0] == p[0]);
    assert(trim_start(c) == c);
    assert(c.last() == (if v.len() > 0 { v.last() } else { ':' }));
    assert(trim_end(c) == c);
    assert(trim(c) == c);
    assert forall|j: int| 0 <= j < np implies c[j] != ':' by {
        assert(c[j] == p[j]);
    }
    assert(c[np] == ':');
    lemma_find_exact(c, ':', 0, np);
    assert(c.subrange(0, np) =~= p);
    assert(c.subrange(np + 1, c.len() as int) =~= v);
    lemma_trim_start_idem(p);
    lemma_trim_start_idem(v);
    let st = spec_set_style(default_style(), trim(p), trim(v));
    assert(declaration_step(empty_map, sel, c) == empty_map.insert(sel, st));
    let ds = split_on(block_body(l2), ';');
    let f = |m: Map<Seq<char>, Style>, decl: Seq<char>| declaration_step(m, sel, decl);
    assert(ds.drop_last() =~= Seq::<Seq<char>>::empty());
    assert(ds.drop_last().fold_left(empty_map, f) == empty_map);
    assert(ds.fold_left(empty_map, f) == f(ds.drop_last().fold_left(empty_map, f), ds.last()));
    assert(spec_declarations(empty_map, sel, l2) == empty_map.insert(sel, st));
    // The fold over the single line.
    let css2 = h + "{"@ + c + cb;
    let init: ParseState = (None::<Seq<char>>, empty_map);
    let g = |st: ParseState, line: Seq<char>| line_step(st, line);
    let one = seq![css2];
    assert(one.drop_last() =~= Seq::<Seq<char>>::empty());
    assert(one.fold_left(init, g) == g(Seq::<Seq<char>>::empty().fold_left(init, g), css2));
}

/// A declaration of a known property whose value parses sets that field, and
/// only that field.
pub proof fn law_set_style_fields(style: Style, prop: Seq<char>, value: Seq<char>)
    ensures
        ({
            let p = trim(prop);
            let v = trim(value);
            let r = spec_set_style(style, prop, value);
            &&& p == "background"@ && spec_parse_color(v) is Some ==> r == Style {
                background: spec_parse_color(v)->0,
                ..style
            }
            &&& p == "color"@ && spec_parse_color(v) is Some ==> r == Style {
                color: spec_parse_color(v)->0,
                ..style
            }
            &&& p == "border-color"@ && spec_parse_color(v) is Some ==> r == Style {
                border_color: spec_parse_color(v)->0,
                ..style
            }
            &&& p == "border-size"@ && spec_parse_u32(v) is Some ==> r == Style {
                border_size: spec_parse_u32(v)->0,
                ..style
            }
            &&& p == "padding"@ && spec_parse_u32(v) is Some ==> r == Style {
                padding: spec_parse_u32(v)->0,
                ..style
            }
            &&& p == "margin"@ && spec_parse_u32(v) is Some ==> r == Style {
                margin: spec_parse_u32(v)->0,
                ..style
            }
            &&& p == "align"@ && spec_parse_align(v) is Some ==> r == Style {
                align: spec_parse_align(v)->0,
                ..style
            }
        }),
{
    reveal_strlit("background");
    assert("background"@.len() == 10 && "background"@[0] == 'b' && "background"@[9] == 'd');
    reveal_strlit("color");
    assert("color"@.len() == 5 && "color"@[0] == 'c' && "color"@[4] == 'r');
    reveal_strlit("border-color");
    assert("border-color"@.len() == 12 && "border-color"@[0] == 'b' && "border-color"@[11] == 'r');
    reveal_strlit("border-size");
    assert("border-size"@.len() == 11 && "border-size"@[0] == 'b' && "border-size"@[10] == 'e');
    reveal_strlit("padding");
    assert("padding"@.len() == 7 && "padding"@[0] == 'p' && "padding"@[6] == 'g');
    reveal_strlit("margin");
    assert("margin"@.len() == 6 && "margin"@[0] == 'm' && "margin"@[5] == 'n');
    reveal_strlit("align");
    assert("align"@.len() == 5 && "align"@[0] == 'a' && "align"@[4] == 'n');
}

/// A colour value is read only from `#` and exactly six hex digits, and is at
/// most `0xffffff`.
pub proof fn law_color_six_hex_digits(s: Seq<char>)
    ensures
        spec_parse_color(s) is Some <==> ({
            let t = trim(s);
            &&& t.len() == 7
            &&& t[0] == '#'
            &&& forall|i: int| 1 <= i < 7 ==> (#[trigger] digit_value(t[i], 16)) is Some
        }),
        spec_parse_color(s) matches Some(v) ==> v <= 0xffffff,
{
    let t = trim(s);
    if t.len() == 7 && t[0] == '#' {
        let h = t.drop_first();
        if digits_value(h, 16) is Some {
            lemma_digits_bound(h, 16);
            assert(radix_pow(16, 6) == 16777216) by {
                reveal_with_fuel(radix_pow, 7);
            }
            assert forall|i: int| 1 <= i < 7 implies (#[trigger] digit_value(t[i], 16)) is Some by {
                lemma_digits_all(h, 16, i - 1);
            }
        } else if forall|i: int| 1 <= i < 7 ==> (#[trigger] digit_value(t[i], 16)) is Some {
            lemma_digits_some(h, 16);
        }
    }
}

/// A declaration of a property outside the supported list leaves a style as it was.
pub proof fn law_unknown_property_ignored(style: Style, prop: Seq<char>, value: Seq<char>)
    requires
        trim(prop) != "background"@,
        trim(prop) != "color"@,
        trim(prop) != "border-color"@,
        trim(prop) != "border-size"@,
        trim(prop) != "padding"@,
        trim(prop) != "margin"@,
        trim(prop) != "align"@,
    ensures
        spec_set_style(style, prop, value) == style,
{
}

/// A supported property whose value does not parse leaves a style as it was.
pub proof fn law_bad_value_ignored(style: Style, prop: Seq<char>, value: Seq<char>)
    requires
        spec_parse_color(trim(value)) is None,
        spec_parse_u32(trim(value)) is None,
        spec_parse_align(trim(value)) is None,
    ensures
        spec_set_style(style, prop, value) == style,
{
}

} // verus!
